//! Rendering of progress rows into fixed-width report lines.
//!
//! A report line holds the topic padded to a common column width, a text
//! progress bar, the two counts, and the percentage with two decimal
//! places.  Everything after the topic is plain ASCII, so the renderers
//! build bytes and the specifications state the exact byte sequence.

use vstd::prelude::*;
use vstd::string::StrSliceExecFns;
use vstd::string::StringExecFns;

use crate::model::{Progress, ProgressView};
use crate::timestamp::digit_byte;

verus! {

/// `n` copies of the byte `b`.
pub open spec fn repeat_byte(b: u8, n: int) -> Seq<u8>
    decreases n,
{
    if n <= 0 {
        Seq::empty()
    } else {
        repeat_byte(b, n - 1).push(b)
    }
}

/// The bytes of a progress bar of width `max` with `value` cells filled:
/// `[`, `value` equals signs, `max - value` spaces, `]`.
pub open spec fn spec_progressbar_bytes(value: int, max: int) -> Seq<u8> {
    seq![91u8] + repeat_byte(61, value) + repeat_byte(32, max - value) + seq![93u8]
}

/// The text of that progress bar.
pub open spec fn spec_progressbar(value: int, max: int) -> Seq<char> {
    spec_progressbar_bytes(value, max).map_values(|b: u8| b as char)
}

/// The decimal digits of `n`, most significant first.
pub open spec fn dec_bytes_spec(n: int) -> Seq<u8>
    decreases n,
{
    if n < 10 {
        seq![digit_byte(n)]
    } else {
        dec_bytes_spec(n / 10).push(digit_byte(n % 10))
    }
}

/// `s` padded on the left with spaces to width `w` (unchanged when
/// already that wide).
pub open spec fn pad_bytes_spec(s: Seq<u8>, w: int) -> Seq<u8> {
    if s.len() >= w {
        s
    } else {
        repeat_byte(32, w - s.len()) + s
    }
}

/// A percentage in hundredths, rendered with two decimal places.
pub open spec fn percent_bytes_spec(h: int) -> Seq<u8> {
    dec_bytes_spec(h / 100) + seq![46u8] + seq![digit_byte((h / 10) % 10), digit_byte(h % 10)]
}

/// How many bar cells of `bw` a row fills: its ratio of the bar width,
/// rounded down; an empty row fills none.
pub open spec fn bar_value(p: ProgressView, bw: int) -> int {
    if p.denominator == 0 {
        0
    } else {
        bw * p.nominator / p.denominator as int
    }
}

/// A row's ratio in hundredths of a percent, rounded to the nearest
/// hundredth (halves up); an empty row reports zero.
pub open spec fn percent_value(p: ProgressView) -> int {
    if p.denominator == 0 {
        0
    } else {
        (20000 * p.nominator + p.denominator) / (2 * p.denominator as int)
    }
}

/// Everything of a report line after the topic: padding to the topic
/// column, the bar, `nominator / denominator`, and the percentage.
pub open spec fn progress_tail_bytes(p: ProgressView, tw: int, bw: int) -> Seq<u8> {
    repeat_byte(32, tw - p.topic.len()) + seq![32u8] + spec_progressbar_bytes(bar_value(p, bw), bw)
        + seq![32u8] + pad_bytes_spec(dec_bytes_spec(p.nominator as int), 3) + seq![
        32u8,
        47u8,
        32u8,
    ] + pad_bytes_spec(dec_bytes_spec(p.denominator as int), 3) + seq![32u8, 61u8, 32u8]
        + pad_bytes_spec(percent_bytes_spec(percent_value(p)), 5) + seq![32u8, 37u8]
}

/// One full report line: the topic, then the rendered tail.
pub open spec fn spec_format_progress(p: ProgressView, tw: int, bw: int) -> Seq<char> {
    p.topic + progress_tail_bytes(p, tw, bw).map_values(|b: u8| b as char)
}

/// Every byte of `s` lies below 128.
pub open spec fn all_ascii(s: Seq<u8>) -> bool {
    forall|i: int| 0 <= i < s.len() ==> s[i] < 128
}

/// Concatenation keeps ASCII-ness.
proof fn lemma_all_ascii_concat(a: Seq<u8>, b: Seq<u8>)
    requires
        all_ascii(a),
        all_ascii(b),
    ensures
        all_ascii(a + b),
{
    assert forall|i: int| 0 <= i < (a + b).len() implies (a + b)[i] < 128 by {
        if i < a.len() {
            assert((a + b)[i] == a[i]);
        } else {
            assert((a + b)[i] == b[i - a.len()]);
        }
    }
}

/// Every index of `repeat_byte(b, n)` holds `b`, and the length is `n`.
proof fn lemma_repeat_byte_index(b: u8, n: int)
    ensures
        n >= 0 ==> repeat_byte(b, n).len() == n,
        n < 0 ==> repeat_byte(b, n).len() == 0,
        forall|i: int| 0 <= i < repeat_byte(b, n).len() ==> repeat_byte(b, n)[i] == b,
    decreases n,
{
    if n > 0 {
        lemma_repeat_byte_index(b, n - 1);
    }
}

/// Decimal digits are the digit bytes, never empty.
proof fn lemma_dec_bytes_ascii(n: int)
    requires
        0 <= n,
    ensures
        1 <= dec_bytes_spec(n).len(),
        all_ascii(dec_bytes_spec(n)),
    decreases n,
{
    if n >= 10 {
        lemma_dec_bytes_ascii(n / 10);
    }
}

/// Relies on String::from_utf8: bytes below 128 decode to one character
/// each, with the same code points.
#[verifier::external_body]
fn ascii_to_string(bytes: Vec<u8>) -> (r: String)
    requires
        all_ascii(bytes@),
    ensures
        r@.len() == bytes@.len(),
        forall|i: int| 0 <= i < r@.len() ==> r@[i] == bytes@[i] as char,
{
    String::from_utf8(bytes).unwrap_or_default()
}

/// Push `n` copies of the byte `b` onto `out`.
fn push_repeated(out: &mut Vec<u8>, b: u8, n: usize)
    ensures
        final(out)@ == old(out)@ + repeat_byte(b, n as int),
{
    let mut i: usize = 0;
    while i < n
        invariant
            i <= n,
            out@ == old(out)@ + repeat_byte(b, i as int),
        decreases n - i,
    {
        out.push(b);
        proof {
            assert(out@ =~= old(out)@ + repeat_byte(b, i + 1));
        }
        i = i + 1;
    }
    proof {
        assert(out@ =~= old(out)@ + repeat_byte(b, n as int));
    }
}

/// Append all of `src` onto `dst`.
fn append_bytes(dst: &mut Vec<u8>, src: &Vec<u8>)
    ensures
        final(dst)@ == old(dst)@ + src@,
{
    let mut i: usize = 0;
    while i < src.len()
        invariant
            i <= src.len(),
            dst@ == old(dst)@ + src@.subrange(0, i as int),
        decreases src.len() - i,
    {
        dst.push(src[i]);
        proof {
            assert(dst@ =~= old(dst)@ + src@.subrange(0, i + 1));
        }
        i = i + 1;
    }
    proof {
        assert(src@.subrange(0, src@.len() as int) =~= src@);
    }
}

fn dec_digit(v: u64) -> (r: u8)
    requires
        v < 10,
    ensures
        r == digit_byte(v as int),
{
    48 + v as u8
}

/// The decimal digits of `n`, most significant first.
fn dec_bytes(n: u64) -> (r: Vec<u8>)
    ensures
        r@ == dec_bytes_spec(n as int),
    decreases n,
{
    if n < 10 {
        let mut v: Vec<u8> = Vec::new();
        v.push(dec_digit(n));
        proof {
            assert(v@ =~= dec_bytes_spec(n as int));
        }
        v
    } else {
        let mut v = dec_bytes(n / 10);
        v.push(dec_digit(n % 10));
        v
    }
}

/// Append `bytes`, left-padded with spaces to width `w`, onto `out`.
fn push_padded(out: &mut Vec<u8>, bytes: &Vec<u8>, w: usize)
    ensures
        final(out)@ == old(out)@ + pad_bytes_spec(bytes@, w as int),
{
    if bytes.len() < w {
        push_repeated(out, 32, w - bytes.len());
    }
    append_bytes(out, bytes);
    proof {
        if bytes@.len() < w {
            assert(out@ =~= old(out)@ + pad_bytes_spec(bytes@, w as int));
        }
    }
}

/// Append the bytes of a progress bar onto `out`.
fn push_bar(out: &mut Vec<u8>, value: usize, max: usize)
    requires
        value <= max,
    ensures
        final(out)@ == old(out)@ + spec_progressbar_bytes(value as int, max as int),
{
    out.push(91);
    push_repeated(out, 61, value);
    push_repeated(out, 32, max - value);
    out.push(93);
    proof {
        lemma_repeat_byte_index(61, value as int);
        lemma_repeat_byte_index(32, max as int - value as int);
        assert(out@ =~= old(out)@ + spec_progressbar_bytes(value as int, max as int));
    }
}

/// Every byte of a progress bar is printable ASCII.
proof fn lemma_bar_ascii(value: int, max: int)
    ensures
        all_ascii(spec_progressbar_bytes(value, max)),
{
    lemma_repeat_byte_index(61, value);
    lemma_repeat_byte_index(32, max - value);
    let s = spec_progressbar_bytes(value, max);
    assert forall|i: int| 0 <= i < s.len() implies s[i] < 128 by {
        if i == 0 {
        } else if i < 1 + repeat_byte(61u8, value).len() {
            assert(s[i] == repeat_byte(61u8, value)[i - 1]);
        } else if i < s.len() - 1 {
            assert(s[i] == repeat_byte(32u8, max - value)[i - 1 - repeat_byte(61u8, value).len()]);
        } else {
            assert(s[i] == 93);
        }
    }
}

/// A text progress bar: `value` filled cells out of `max`, between
/// brackets.
pub fn progressbar(value: usize, max: usize) -> (r: String)
    requires
        value <= max,
    ensures
        r@ == spec_progressbar(value as int, max as int),
{
    let mut out: Vec<u8> = Vec::new();
    push_bar(&mut out, value, max);
    proof {
        lemma_bar_ascii(value as int, max as int);
        assert(out@ =~= spec_progressbar_bytes(value as int, max as int));
    }
    let s = ascii_to_string(out);
    proof {
        assert(s@ =~= spec_progressbar(value as int, max as int));
    }
    s
}

/// The length of the longest topic of the rows: the column width a
/// report aligns its topics to.
pub open spec fn max_topic_len(rows: Seq<ProgressView>) -> int
    decreases rows.len(),
{
    if rows.len() == 0 {
        0
    } else {
        let rest = max_topic_len(rows.drop_last());
        if rows.last().topic.len() > rest {
            rows.last().topic.len() as int
        } else {
            rest
        }
    }
}

/// The width of the topic column: the length of the longest topic, in
/// characters.
pub fn widest_topic(rows: &Vec<Progress>) -> (r: usize)
    ensures
        r == max_topic_len(rows@.map_values(|p: Progress| p@)),
{
    let ghost rs = rows@.map_values(|p: Progress| p@);
    let mut best: usize = 0;
    let mut i: usize = 0;
    while i < rows.len()
        invariant
            i <= rows.len(),
            rs == rows@.map_values(|p: Progress| p@),
            best == max_topic_len(rs.subrange(0, i as int)),
        decreases rows.len() - i,
    {
        proof {
            assert(rs.subrange(0, i + 1).drop_last() =~= rs.subrange(0, i as int));
            assert(rs.subrange(0, i + 1).last() == rs[i as int]);
        }
        let w = rows[i].topic.as_str().unicode_len();
        if w > best {
            best = w;
        }
        i = i + 1;
    }
    proof {
        assert(rs.subrange(0, rs.len() as int) =~= rs);
    }
    best
}

/// One aligned report line for a progress row: the topic padded to the
/// column width, the bar, `nominator / denominator`, and the percentage
/// with two decimal places.
pub fn format_progress(progress: &Progress, topic_col_width: usize, progressbar_width: usize) -> (r:
    String)
    requires
        progress@.nominator <= progress@.denominator,
        progress.topic@.len() <= topic_col_width,
    ensures
        r@ == spec_format_progress(progress@, topic_col_width as int, progressbar_width as int),
{
    let ghost p = progress@;
    let ghost tw = topic_col_width as int;
    let ghost bw = progressbar_width as int;
    let nom = progress.nominator;
    let denom = progress.denominator;
    let bv: usize = if denom == 0 {
        0
    } else {
        proof {
            assert(bw * nom as int <= bw * denom as int) by (nonlinear_arith)
                requires
                    nom as int <= denom as int,
                    bw >= 0,
            ;
            assert(bw * nom as int >= 0) by {
                vstd::arithmetic::mul::lemma_mul_nonnegative(bw, nom as int);
            }
            assert(bw * nom as int / denom as int <= bw) by {
                vstd::arithmetic::div_mod::lemma_div_is_ordered(
                    bw * nom as int,
                    bw * denom as int,
                    denom as int,
                );
                vstd::arithmetic::div_mod::lemma_div_by_multiple(bw, denom as int);
            }
            assert(bw * nom as int / denom as int >= 0) by {
                vstd::arithmetic::div_mod::lemma_div_pos_is_pos(bw * nom as int, denom as int);
            }
        }
        let pw128: u128 = progressbar_width as u128;
        let nom128: u128 = nom as u128;
        let denom128: u128 = denom as u128;
        assert(pw128 * nom128 < 0x100000000000000000000000000000000) by (nonlinear_arith)
            requires
                pw128 < 0x10000000000000000,
                nom128 < 0x10000000000000000,
        ;
        let wide: u128 = pw128 * nom128 / denom128;
        wide as usize
    };
    assert(bv == bar_value(p, bw) && bv <= progressbar_width);
    let h = progress.percent_hundredths();
    assert(h == percent_value(p) && h <= 10000);
    let topic_len = progress.topic.as_str().unicode_len();
    let mut tail: Vec<u8> = Vec::new();
    push_repeated(&mut tail, 32, topic_col_width - topic_len);
    let ghost g1 = repeat_byte(32, tw - p.topic.len());
    tail.push(32);
    let ghost g2 = g1 + seq![32u8];
    proof {
        assert(tail@ =~= g2);
    }
    push_bar(&mut tail, bv, progressbar_width);
    let ghost g3 = g2 + spec_progressbar_bytes(bar_value(p, bw), bw);
    tail.push(32);
    let ghost g4 = g3 + seq![32u8];
    proof {
        assert(tail@ =~= g4);
    }
    let dn = dec_bytes(nom);
    push_padded(&mut tail, &dn, 3);
    let ghost g5 = g4 + pad_bytes_spec(dec_bytes_spec(p.nominator as int), 3);
    tail.push(32);
    tail.push(47);
    tail.push(32);
    let ghost g6 = g5 + seq![32u8, 47u8, 32u8];
    proof {
        assert(tail@ =~= g6);
    }
    let dd = dec_bytes(denom);
    push_padded(&mut tail, &dd, 3);
    let ghost g7 = g6 + pad_bytes_spec(dec_bytes_spec(p.denominator as int), 3);
    tail.push(32);
    tail.push(61);
    tail.push(32);
    let ghost g8 = g7 + seq![32u8, 61u8, 32u8];
    proof {
        assert(tail@ =~= g8);
    }
    let mut pb = dec_bytes(h / 100);
    pb.push(46);
    pb.push(dec_digit((h / 10) % 10));
    pb.push(dec_digit(h % 10));
    proof {
        assert(pb@ =~= percent_bytes_spec(percent_value(p)));
    }
    push_padded(&mut tail, &pb, 5);
    let ghost g9 = g8 + pad_bytes_spec(percent_bytes_spec(percent_value(p)), 5);
    tail.push(32);
    tail.push(37);
    let ghost g10 = g9 + seq![32u8, 37u8];
    proof {
        assert(tail@ =~= g10);
        assert(tail@ =~= progress_tail_bytes(p, tw, bw));
        lemma_repeat_byte_index(32u8, tw - p.topic.len());
        lemma_bar_ascii(bar_value(p, bw), bw);
        lemma_dec_bytes_ascii(p.nominator as int);
        lemma_dec_bytes_ascii(p.denominator as int);
        lemma_dec_bytes_ascii(percent_value(p) / 100);
        assert(all_ascii(pad_bytes_spec(dec_bytes_spec(p.nominator as int), 3))) by {
            lemma_repeat_byte_index(32u8, 3 - dec_bytes_spec(p.nominator as int).len());
            lemma_all_ascii_concat(
                repeat_byte(32, 3 - dec_bytes_spec(p.nominator as int).len()),
                dec_bytes_spec(p.nominator as int),
            );
        }
        assert(all_ascii(pad_bytes_spec(dec_bytes_spec(p.denominator as int), 3))) by {
            lemma_repeat_byte_index(32u8, 3 - dec_bytes_spec(p.denominator as int).len());
            lemma_all_ascii_concat(
                repeat_byte(32, 3 - dec_bytes_spec(p.denominator as int).len()),
                dec_bytes_spec(p.denominator as int),
            );
        }
        assert(all_ascii(percent_bytes_spec(percent_value(p)))) by {
            lemma_all_ascii_concat(dec_bytes_spec(percent_value(p) / 100), seq![46u8]);
            lemma_all_ascii_concat(
                dec_bytes_spec(percent_value(p) / 100) + seq![46u8],
                seq![
                    digit_byte((percent_value(p) / 10) % 10),
                    digit_byte(percent_value(p) % 10),
                ],
            );
        }
        assert(all_ascii(pad_bytes_spec(percent_bytes_spec(percent_value(p)), 5))) by {
            lemma_repeat_byte_index(32u8, 5 - percent_bytes_spec(percent_value(p)).len());
            lemma_all_ascii_concat(
                repeat_byte(32, 5 - percent_bytes_spec(percent_value(p)).len()),
                percent_bytes_spec(percent_value(p)),
            );
        }
        lemma_all_ascii_concat(g1, seq![32u8]);
        lemma_all_ascii_concat(g2, spec_progressbar_bytes(bar_value(p, bw), bw));
        lemma_all_ascii_concat(g3, seq![32u8]);
        lemma_all_ascii_concat(g4, pad_bytes_spec(dec_bytes_spec(p.nominator as int), 3));
        lemma_all_ascii_concat(g5, seq![32u8, 47u8, 32u8]);
        lemma_all_ascii_concat(g6, pad_bytes_spec(dec_bytes_spec(p.denominator as int), 3));
        lemma_all_ascii_concat(g7, seq![32u8, 61u8, 32u8]);
        lemma_all_ascii_concat(g8, pad_bytes_spec(percent_bytes_spec(percent_value(p)), 5));
        lemma_all_ascii_concat(g9, seq![32u8, 37u8]);
        assert(all_ascii(tail@));
    }
    let tail_s = ascii_to_string(tail);
    let mut s = progress.topic.clone();
    s.append(tail_s.as_str());
    proof {
        assert(s@ =~= spec_format_progress(p, tw, bw));
    }
    s
}

} // verus!
