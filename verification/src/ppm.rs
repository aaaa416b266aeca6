//! The PPM encoding of a canvas: the pieces that are written, one after the
//! other, into a writer that breaks lines after seventy columns, and what
//! comes out.

use vstd::prelude::*;
use crate::writer::{
    MaxWidthWriter, NEWLINE, SPACE, feed, feed_terminates, concat_all, write_step, no_byte,
    words_within, lines_within, ends_line, is_sep, respaced, lemma_feed_push, lemma_feed_append,
    lemma_feed_terminates_prefix, lemma_step_newline, lemma_short_runs_within,
    lemma_runs_within_concat, lemma_split_lines_first, lemma_split_lines_none,
    lemma_feed_respaced, lemma_lines_join, lemma_feed_plain,
};

verus! {

/// The column limit of PPM lines.
pub const PPM_LINE_WIDTH: usize = 70;

// ---------------------------------------------------------------------------
// Decimal digits
// ---------------------------------------------------------------------------

/// ASCII decimal digits of `n`, without sign or leading zeros.
pub open spec fn decimal(n: nat) -> Seq<u8>
    decreases n,
{
    if n < 10 {
        seq![(48 + n) as u8]
    } else {
        decimal(n / 10) + seq![(48 + n % 10) as u8]
    }
}

/// Appends the decimal digits of `n` to `out`.
pub fn push_decimal(n: u32, out: &mut Vec<u8>)
    ensures
        final(out)@ == old(out)@ + decimal(n as nat),
    decreases n,
{
    if n >= 10 {
        push_decimal(n / 10, out);
    }
    let d: u8 = (n % 10) as u8;
    out.push(48 + d);
    proof {
        assert(decimal(n as nat) =~= if n < 10 {
            seq![(48 + n) as u8]
        } else {
            decimal((n / 10) as nat) + seq![(48 + n % 10) as u8]
        });
    }
}

/// The decimal digits of `n`.
pub fn decimal_bytes(n: u32) -> (v: Vec<u8>)
    ensures
        v@ == decimal(n as nat),
{
    let mut v: Vec<u8> = Vec::new();
    push_decimal(n, &mut v);
    proof {
        assert(Seq::<u8>::empty() + decimal(n as nat) =~= decimal(n as nat));
    }
    v
}

/// The number that the ASCII decimal digits `s` write.
pub open spec fn digits_value(s: Seq<u8>) -> nat
    decreases s.len(),
{
    if s.len() == 0 {
        0
    } else {
        digits_value(s.drop_last()) * 10 + (s.last() - 48) as nat
    }
}

/// The digits of `n` write `n`, without a leading zero.
pub proof fn lemma_decimal_value(n: nat)
    ensures
        digits_value(decimal(n)) == n,
        decimal(n)[0] != 48 || n == 0,
    decreases n,
{
    if n >= 10 {
        lemma_decimal_value(n / 10);
        let d = decimal(n / 10);
        assert(decimal(n).drop_last() =~= d);
        let c = decimal(n).last();
        assert(c == (48 + n % 10) as u8);
        assert(c - 48 == n % 10);
        assert(n == (n / 10) * 10 + n % 10) by (nonlinear_arith);
        assert(digits_value(decimal(n)) == digits_value(d) * 10 + (c - 48) as nat);
        lemma_decimal(n / 10, 0);
        assert(decimal(n)[0] == d[0]);
    } else {
        assert(decimal(n).drop_last() =~= Seq::<u8>::empty());
        assert(decimal(n).last() - 48 == n);
        assert(digits_value(decimal(n)) == digits_value(Seq::<u8>::empty()) * 10 + (decimal(n).last() - 48) as nat);
    }
}

/// `10` to the power `k`.
pub open spec fn pow10(k: nat) -> nat
    decreases k,
{
    if k == 0 {
        1
    } else {
        10 * pow10((k - 1) as nat)
    }
}

/// Decimal digits are the bytes `'0'` to `'9'`, and below `10^k` there are
/// at most `k` of them.
pub proof fn lemma_decimal(n: nat, k: nat)
    ensures
        decimal(n).len() >= 1,
        forall|i: int| 0 <= i < decimal(n).len() ==> 48 <= #[trigger] decimal(n)[i] <= 57,
        k >= 1 && n < pow10(k) ==> decimal(n).len() <= k,
    decreases n,
{
    if n >= 10 {
        let k1: nat = if k >= 1 { (k - 1) as nat } else { 0 };
        lemma_decimal(n / 10, k1);
        if k >= 1 && n < pow10(k) {
            if k == 1 {
                assert(false);
            }
            assert(n / 10 < pow10(k1)) by (nonlinear_arith)
                requires
                    n < 10 * pow10(k1),
            ;
        }
        let d = decimal(n / 10);
        assert forall|i: int| 0 <= i < decimal(n).len() implies 48 <= #[trigger] decimal(n)[i]
            <= 57 by {
            if i < d.len() {
                assert(decimal(n)[i] == d[i]);
            }
        }
    }
}

// ---------------------------------------------------------------------------
// The pieces of a PPM file
// ---------------------------------------------------------------------------

/// One RGB pixel, each channel a byte.
pub type Rgb8 = (u8, u8, u8);

/// The header of a PPM file of `w` by `h` pixels.
pub open spec fn header_bytes(w: nat, h: nat) -> Seq<u8> {
    seq![80u8, 51u8, NEWLINE] + decimal(w) + seq![SPACE] + decimal(h) + seq![
        NEWLINE,
        50u8,
        53u8,
        53u8,
        NEWLINE,
    ]
}

/// The pieces in which the header is written.
pub open spec fn header_chunks(w: nat, h: nat) -> Seq<Seq<u8>> {
    seq![
        seq![80u8, 51u8, NEWLINE],
        decimal(w),
        seq![SPACE],
        decimal(h),
        seq![NEWLINE, 50u8, 53u8, 53u8, NEWLINE],
    ]
}

/// The pieces in which the pixel `p` in column `col` is written.
pub open spec fn pixel_chunks(p: Rgb8, col: nat) -> Seq<Seq<u8>> {
    (if col > 0 {
        seq![seq![SPACE]]
    } else {
        Seq::<Seq<u8>>::empty()
    }) + seq![
        decimal(p.0 as nat),
        seq![SPACE],
        decimal(p.1 as nat),
        seq![SPACE],
        decimal(p.2 as nat),
    ]
}

/// The pieces in which pixel `i` of the rows of `w` pixels in `q` is
/// written, with the newline that ends its row where it is the last.
pub open spec fn pixel_step_chunks(q: Seq<Rgb8>, w: nat, i: nat) -> Seq<Seq<u8>> {
    pixel_chunks(q[i as int], i % w) + if (i + 1) % w == 0 {
        seq![seq![NEWLINE]]
    } else {
        Seq::<Seq<u8>>::empty()
    }
}

/// The pieces in which the first `k` pixels are written.
pub open spec fn data_chunks(q: Seq<Rgb8>, w: nat, k: nat) -> Seq<Seq<u8>>
    decreases k,
{
    if k == 0 {
        Seq::empty()
    } else {
        data_chunks(q, w, (k - 1) as nat) + pixel_step_chunks(q, w, (k - 1) as nat)
    }
}

/// All the pieces of the PPM file of the `w` by `h` pixels `q`, row by row.
pub open spec fn ppm_chunks(w: nat, h: nat, q: Seq<Rgb8>) -> Seq<Seq<u8>> {
    header_chunks(w, h) + data_chunks(q, w, w * h)
}

/// The PPM file of the `w` by `h` pixels `q`: its pieces written into a
/// writer that breaks lines after seventy columns, then flushed.
pub open spec fn ppm_output(w: nat, h: nat, q: Seq<Rgb8>) -> Seq<u8> {
    let s = feed(Seq::empty(), ppm_chunks(w, h, q), PPM_LINE_WIDTH as nat);
    s.0 + s.1
}

/// A writer buffer between pixels: no newline, within the line width, and
/// no word longer than a byte's three digits.
pub open spec fn calm(b: Seq<u8>) -> bool {
    &&& no_byte(b, NEWLINE)
    &&& b.len() <= PPM_LINE_WIDTH
    &&& words_within(b, 3)
}

// ---------------------------------------------------------------------------
// Writing pieces
// ---------------------------------------------------------------------------

/// The byte strings held by the vectors of `v`.
pub open spec fn pieces_view(v: Seq<Vec<u8>>) -> Seq<Seq<u8>> {
    v.map_values(|p: Vec<u8>| p@)
}

/// Writes the pieces one after the other.
pub(crate) fn write_pieces(writer: &mut MaxWidthWriter, pieces: &Vec<Vec<u8>>, out: &mut Vec<u8>)
    requires
        feed_terminates(old(writer).buffer(), pieces_view(pieces@), old(writer).cols()),
    ensures
        final(writer).cols() == old(writer).cols(),
        final(out)@ == old(out)@ + feed(
            old(writer).buffer(),
            pieces_view(pieces@),
            old(writer).cols(),
        ).0,
        final(writer).buffer() == feed(
            old(writer).buffer(),
            pieces_view(pieces@),
            old(writer).cols(),
        ).1,
{
    let ghost cs = pieces_view(pieces@);
    let ghost b0 = writer.buffer();
    let ghost n = writer.cols();
    let ghost out0 = out@;
    let mut i: usize = 0;
    while i < pieces.len()
        invariant
            cs == pieces_view(pieces@),
            i <= pieces.len(),
            writer.cols() == n,
            feed_terminates(b0, cs, n),
            out@ == out0 + feed(b0, cs.take(i as int), n).0,
            writer.buffer() == feed(b0, cs.take(i as int), n).1,
        decreases pieces.len() - i,
    {
        proof {
            lemma_feed_terminates_prefix(b0, cs, n, i + 1);
            assert(cs.take(i + 1) =~= cs.take(i as int).push(cs[i as int]));
            lemma_feed_push(b0, cs.take(i as int), cs[i as int], n);
        }
        writer.write(pieces[i].as_slice(), out);
        proof {
            assert(out@ =~= out0 + feed(b0, cs.take(i + 1), n).0);
        }
        i = i + 1;
    }
    proof {
        assert(cs.take(i as int) =~= cs);
    }
}


// ---------------------------------------------------------------------------
// What the writer makes of the pieces
// ---------------------------------------------------------------------------

/// The header comes out unbroken, and leaves the writer empty.
pub proof fn lemma_header(w: nat, h: nat)
    requires
        w < pow10(10),
        h < pow10(10),
    ensures
        feed_terminates(Seq::empty(), header_chunks(w, h), PPM_LINE_WIDTH as nat),
        feed(Seq::empty(), header_chunks(w, h), PPM_LINE_WIDTH as nat) == (
            header_bytes(w, h),
            Seq::<u8>::empty(),
        ),
        lines_within(header_bytes(w, h), PPM_LINE_WIDTH as nat),
        ends_line(header_bytes(w, h)),
{
    let n = PPM_LINE_WIDTH as nat;
    let e = Seq::<u8>::empty();
    let p3 = seq![80u8, 51u8, NEWLINE];
    let sp = seq![SPACE];
    let tail = seq![NEWLINE, 50u8, 53u8, 53u8, NEWLINE];
    let dw = decimal(w);
    let dh = decimal(h);
    lemma_decimal(w, 10);
    lemma_decimal(h, 10);
    let c0 = Seq::<Seq<u8>>::empty();
    let c1 = c0.push(p3);
    let c2 = c1.push(dw);
    let c3 = c2.push(sp);
    let c4 = c3.push(dh);
    let c5 = c4.push(tail);
    assert(c5 =~= header_chunks(w, h));
    lemma_split_lines_none(e);
    // "P3\n"
    lemma_feed_push(e, c0, p3, n);
    assert(e + p3 =~= seq![80u8, 51u8] + seq![NEWLINE] + e);
    lemma_split_lines_first(seq![80u8, 51u8], e);
    assert(seq![80u8, 51u8] + seq![NEWLINE] + e =~= p3);
    assert(feed(e, c1, n) == (p3, e)) by {
        assert(e + p3 =~= p3);
        assert(Seq::<u8>::empty() + p3 =~= p3);
        assert(p3 + e =~= p3);
    }
    // the width
    lemma_feed_push(e, c1, dw, n);
    lemma_split_lines_none(e + dw);
    assert(feed(e, c2, n) == (p3, dw)) by {
        assert(e + dw =~= dw);
        assert(p3 + (e + e) =~= p3);
    }
    // the space
    lemma_feed_push(e, c2, sp, n);
    lemma_split_lines_none(dw + sp);
    assert(feed(e, c3, n) == (p3, dw + sp)) by {
        assert(p3 + (e + e) =~= p3);
    }
    // the height
    lemma_feed_push(e, c3, dh, n);
    let line = dw + sp + dh;
    lemma_split_lines_none(line);
    assert(feed(e, c4, n) == (p3, line)) by {
        assert(p3 + (e + e) =~= p3);
    }
    // "\n255\n"
    lemma_feed_push(e, c4, tail, n);
    let d255 = seq![50u8, 53u8, 53u8];
    assert(line + tail =~= line + seq![NEWLINE] + (d255 + seq![NEWLINE] + e));
    lemma_split_lines_first(line, d255 + seq![NEWLINE] + e);
    lemma_split_lines_first(d255, e);
    let t = write_step(line, tail, n);
    assert(t == (line + seq![NEWLINE] + (d255 + seq![NEWLINE] + e), e)) by {
        assert(line + seq![NEWLINE] + (d255 + seq![NEWLINE] + e + e) =~= line + seq![NEWLINE] + (
        d255 + seq![NEWLINE] + e));
    }
    assert(p3 + (line + seq![NEWLINE] + (d255 + seq![NEWLINE] + e) + e) =~= header_bytes(w, h));
    // Lines
    let l2 = line + seq![NEWLINE];
    let l3 = d255 + seq![NEWLINE];
    lemma_short_runs_within(p3, false, n);
    lemma_short_runs_within(l2, false, n);
    lemma_short_runs_within(l3, false, n);
    assert(l2.last() == NEWLINE);
    assert(l3.last() == NEWLINE);
    lemma_lines_join(l2, l3, n);
    lemma_lines_join(p3, l2 + l3, n);
    assert(p3 + (l2 + l3) =~= header_bytes(w, h));
}

/// The pieces of one pixel, and the newline that may end its row, written
/// into a calm buffer that is empty at the start of a row.
pub proof fn lemma_pixel(b: Seq<u8>, p: Rgb8, col: nat, last: bool)
    requires
        calm(b),
        col == 0 ==> b.len() == 0,
    ensures
        ({
            let cs = pixel_chunks(p, col) + if last {
                seq![seq![NEWLINE]]
            } else {
                Seq::<Seq<u8>>::empty()
            };
            let s = feed(b, cs, PPM_LINE_WIDTH as nat);
            &&& feed_terminates(b, cs, PPM_LINE_WIDTH as nat)
            &&& lines_within(s.0, PPM_LINE_WIDTH as nat)
            &&& ends_line(s.0)
            &&& calm(s.1)
            &&& last ==> s.1.len() == 0
        }),
{
    let n = PPM_LINE_WIDTH as nat;
    let sp = seq![SPACE];
    let dr = decimal(p.0 as nat);
    let dg = decimal(p.1 as nat);
    let db = decimal(p.2 as nat);
    assert(pow10(3) == 1000) by {
        reveal_with_fuel(pow10, 4);
    }
    lemma_decimal(p.0 as nat, 3);
    lemma_decimal(p.1 as nat, 3);
    lemma_decimal(p.2 as nat, 3);
    let lead = if col > 0 {
        seq![sp]
    } else {
        Seq::<Seq<u8>>::empty()
    };
    let pc = pixel_chunks(p, col);
    let body = seq![dr, sp, dg, sp, db];
    assert(pc == lead + body);
    let flat = dr + sp + dg + sp + db;
    assert(concat_all(body) =~= flat) by {
        let b0 = Seq::<Seq<u8>>::empty();
        assert(body =~= b0.push(dr).push(sp).push(dg).push(sp).push(db));
        lemma_feed_push(Seq::empty(), b0, dr, n);
        lemma_feed_push(Seq::empty(), b0.push(dr), sp, n);
        lemma_feed_push(Seq::empty(), b0.push(dr).push(sp), dg, n);
        lemma_feed_push(Seq::empty(), b0.push(dr).push(sp).push(dg), sp, n);
        lemma_feed_push(Seq::empty(), b0.push(dr).push(sp).push(dg).push(sp), db, n);
        assert(Seq::<u8>::empty() + dr =~= dr);
    }
    let lead_flat = if col > 0 {
        sp
    } else {
        Seq::<u8>::empty()
    };
    assert(concat_all(lead) =~= lead_flat) by {
        if col > 0 {
            lemma_feed_push(Seq::empty(), Seq::<Seq<u8>>::empty(), sp, n);
            assert(Seq::<u8>::empty() + sp =~= sp);
        }
    }
    lemma_feed_append(b, lead, body, n);
    lemma_feed_append(b, lead, body, n);
    assert(concat_all(pc) == lead_flat + flat);
    // The words of the buffer and the pixel stay within three bytes.
    let x = b + lead_flat;
    assert(x.len() == 0 || is_sep(x.last(), true)) by {
        if col > 0 {
            assert(x.last() == SPACE);
        }
    }
    assert(words_within(x, 3)) by {
        if col > 0 {
            assert(x.drop_last() =~= b);
        } else {
            assert(x =~= b);
        }
    }
    lemma_short_runs_within(dr, true, 3);
    lemma_short_runs_within(dg, true, 3);
    lemma_short_runs_within(db, true, 3);
    lemma_short_runs_within(sp, true, 3);
    assert((dr + sp).last() == SPACE);
    assert((dr + sp).drop_last() =~= dr);
    lemma_runs_within_concat(dr + sp, dg, true, 3);
    assert((dr + sp + dg + sp).last() == SPACE);
    assert((dr + sp + dg + sp).drop_last() =~= dr + sp + dg);
    lemma_runs_within_concat(dr + sp + dg + sp, db, true, 3);
    assert(words_within(flat, 3));
    lemma_runs_within_concat(x, flat, true, 3);
    assert(b + concat_all(pc) =~= x + flat);
    assert forall|k: int| 0 <= k < concat_all(pc).len() implies concat_all(pc)[k] != NEWLINE by {
        let f = concat_all(pc);
        assert(f =~= lead_flat + dr + sp + dg + sp + db);
        let o1 = lead_flat.len() as int;
        let o2 = o1 + dr.len();
        let o3 = o2 + 1;
        let o4 = o3 + dg.len();
        let o5 = o4 + 1;
        if k < o1 {
        } else if k < o2 {
            assert(f[k] == dr[k - o1]);
        } else if k < o3 {
        } else if k < o4 {
            assert(f[k] == dg[k - o3]);
        } else if k < o5 {
        } else {
            assert(f[k] == db[k - o5]);
        }
    }
    lemma_feed_plain(b, pc, n, 3);
    let s = feed(b, pc, n);
    if last {
        let nl = seq![seq![NEWLINE]];
        lemma_feed_append(b, pc, nl, n);
        lemma_feed_push(s.1, Seq::<Seq<u8>>::empty(), seq![NEWLINE], n);
        assert(Seq::<Seq<u8>>::empty().push(seq![NEWLINE]) =~= nl);
        lemma_step_newline(s.1, n);
        assert(Seq::<u8>::empty() + (s.1 + seq![NEWLINE]) =~= s.1 + seq![NEWLINE]);
        lemma_lines_join(s.0, s.1 + seq![NEWLINE], n);
        lemma_short_runs_within(Seq::<u8>::empty(), true, 3);
    } else {
        assert(pc + Seq::<Seq<u8>>::empty() =~= pc);
    }
}


/// Pixel chunks only read the first `k` pixels.
pub proof fn lemma_data_chunks_extend(q1: Seq<Rgb8>, q2: Seq<Rgb8>, w: nat, k: nat)
    requires
        k <= q1.len(),
        k <= q2.len(),
        forall|i: int| 0 <= i < k ==> q1[i] == q2[i],
    ensures
        data_chunks(q1, w, k) == data_chunks(q2, w, k),
    decreases k,
{
    if k > 0 {
        lemma_data_chunks_extend(q1, q2, w, (k - 1) as nat);
    }
}

/// The state of the writer after the header and the first `k` pixels.
#[verifier::rlimit(40)]
pub proof fn lemma_data_state(w: nat, h: nat, q: Seq<Rgb8>, k: nat)
    requires
        0 < w,
        w < pow10(10),
        h < pow10(10),
        k <= q.len(),
    ensures
        ({
            let cs = header_chunks(w, h) + data_chunks(q, w, k);
            let s = feed(Seq::empty(), cs, PPM_LINE_WIDTH as nat);
            &&& feed_terminates(Seq::empty(), cs, PPM_LINE_WIDTH as nat)
            &&& lines_within(s.0, PPM_LINE_WIDTH as nat)
            &&& ends_line(s.0)
            &&& calm(s.1)
            &&& k % w == 0 ==> s.1.len() == 0
            &&& header_bytes(w, h).len() <= s.0.len()
            &&& s.0.take(header_bytes(w, h).len() as int) == header_bytes(w, h)
        }),
    decreases k,
{
    let n = PPM_LINE_WIDTH as nat;
    let e = Seq::<u8>::empty();
    lemma_header(w, h);
    let hb = header_bytes(w, h);
    if k == 0 {
        assert(header_chunks(w, h) + data_chunks(q, w, k) =~= header_chunks(w, h));
        assert(hb.take(hb.len() as int) =~= hb);
        lemma_short_runs_within(e, true, 3);
    } else {
        let i = (k - 1) as nat;
        lemma_data_state(w, h, q, i);
        let ci = header_chunks(w, h) + data_chunks(q, w, i);
        let psc = pixel_step_chunks(q, w, i);
        assert(header_chunks(w, h) + data_chunks(q, w, k) =~= ci + psc);
        lemma_feed_append(e, ci, psc, n);
        let si = feed(e, ci, n);
        let last = (i + 1) % w == 0;
        lemma_pixel(si.1, q[i as int], i % w, last);
        assert(psc == pixel_chunks(q[i as int], i % w) + if last {
            seq![seq![NEWLINE]]
        } else {
            Seq::<Seq<u8>>::empty()
        });
        let t = feed(si.1, psc, n);
        lemma_lines_join(si.0, t.0, n);
        assert((si.0 + t.0).take(hb.len() as int) =~= si.0.take(hb.len() as int));
    }
}

/// `w * h` pixels fill whole rows of `w`.
proof fn lemma_whole_rows(w: nat, h: nat)
    requires
        w > 0,
    ensures
        (w * h) % w == 0,
{
    vstd::arithmetic::div_mod::lemma_mod_multiples_basic(h as int, w as int);
    assert(w * h == h * w) by (nonlinear_arith);
}

/// Every `u32` is below `10^10`.
pub proof fn lemma_u32_below_pow10(x: u32)
    ensures
        x < pow10(10),
{
    assert(pow10(10) == 10000000000nat) by {
        reveal_with_fuel(pow10, 11);
    }
}

/// The whole PPM file: every write ends, its lines are within the line width,
/// it ends its last line, and it starts with the header.
#[verifier::rlimit(40)]
pub proof fn lemma_ppm_state(w: u32, h: u32, q: Seq<Rgb8>)
    requires
        w > 0,
        q.len() == w * h,
    ensures
        feed_terminates(Seq::empty(), ppm_chunks(w as nat, h as nat, q), PPM_LINE_WIDTH as nat),
        feed(Seq::empty(), ppm_chunks(w as nat, h as nat, q), PPM_LINE_WIDTH as nat).1.len() == 0,
        lines_within(ppm_output(w as nat, h as nat, q), PPM_LINE_WIDTH as nat),
        ends_line(ppm_output(w as nat, h as nat, q)),
        header_bytes(w as nat, h as nat).len() <= ppm_output(w as nat, h as nat, q).len(),
        ppm_output(w as nat, h as nat, q).take(header_bytes(w as nat, h as nat).len() as int)
            == header_bytes(w as nat, h as nat),
{
    lemma_u32_below_pow10(w);
    lemma_u32_below_pow10(h);
    lemma_whole_rows(w as nat, h as nat);
    lemma_data_state(w as nat, h as nat, q, (w * h) as nat);
    let s = feed(Seq::empty(), ppm_chunks(w as nat, h as nat, q), PPM_LINE_WIDTH as nat);
    assert(s.0 + s.1 =~= s.0);
}

/// Splitting long lines in PPM files: no line of the PPM file of a canvas
/// is longer than seventy bytes.
#[verifier::rlimit(40)]
pub proof fn lemma_ppm_lines_within_width(w: u32, h: u32, q: Seq<Rgb8>)
    requires
        w > 0,
        q.len() == w * h,
    ensures
        lines_within(ppm_output(w as nat, h as nat, q), PPM_LINE_WIDTH as nat),
{
    lemma_ppm_state(w, h, q);
}

/// PPM files end with a newline character.
#[verifier::rlimit(40)]
pub proof fn lemma_ppm_ends_with_newline(w: u32, h: u32, q: Seq<Rgb8>)
    requires
        w > 0,
        q.len() == w * h,
    ensures
        ppm_output(w as nat, h as nat, q).len() > 0,
        ppm_output(w as nat, h as nat, q).last() == NEWLINE,
{
    lemma_ppm_state(w, h, q);
    let o = ppm_output(w as nat, h as nat, q);
    assert(header_bytes(w as nat, h as nat).len() >= 3);
    assert(o.len() > 0);
    assert(ends_line(o));
}

/// A PPM file starts with its header: the magic number `P3`, the width and
/// the height, and the largest channel value `255`, each on a line.
#[verifier::rlimit(40)]
pub proof fn lemma_ppm_starts_with_header(w: u32, h: u32, q: Seq<Rgb8>)
    requires
        w > 0,
        q.len() == w * h,
    ensures
        ppm_output(w as nat, h as nat, q).take(header_bytes(w as nat, h as nat).len() as int)
            == header_bytes(w as nat, h as nat),
{
    lemma_ppm_state(w, h, q);
}

/// Splitting lines changes nothing but spaces into newlines: the PPM file
/// is its pieces joined together, with some of their spaces turned into
/// newlines.
#[verifier::rlimit(40)]
pub proof fn lemma_ppm_respaced(w: u32, h: u32, q: Seq<Rgb8>)
    requires
        w > 0,
        q.len() == w * h,
    ensures
        respaced(concat_all(ppm_chunks(w as nat, h as nat, q)), ppm_output(w as nat, h as nat, q)),
{
    lemma_ppm_state(w, h, q);
    lemma_feed_respaced(Seq::empty(), ppm_chunks(w as nat, h as nat, q), PPM_LINE_WIDTH as nat);
    assert(Seq::<u8>::empty() + concat_all(ppm_chunks(w as nat, h as nat, q)) =~= concat_all(
        ppm_chunks(w as nat, h as nat, q),
    ));
}

} // verus!
