//! Text rendering: decimal scalars, bracketed vectors, and the aligned
//! determinant table, each pinned to an exact character-level description.

use vstd::prelude::*;

use crate::determinant::{grid_view, Determinant, DeterNum, SpecNum};
use crate::matrix::Matrix;
use crate::vector::Vector;

verus! {

/// The characters that a buffer of single-byte codes stands for.
pub open spec fn chars_of(b: Seq<u8>) -> Seq<char> {
    b.map_values(|x: u8| x as char)
}

/// Whether every byte of the buffer is a plain character code.
pub open spec fn all_ascii(b: Seq<u8>) -> bool {
    forall|i: int| 0 <= i < b.len() ==> #[trigger] b[i] < 128
}

/// The decimal digits of a non-negative integer, most significant first.
pub open spec fn dec_digits(n: int) -> Seq<char>
    recommends
        n >= 0,
    decreases n,
{
    if n < 10 {
        seq![((n + 48) as u8) as char]
    } else {
        dec_digits(n / 10).push(((n % 10 + 48) as u8) as char)
    }
}

/// The decimal text of an integer: a minus sign for negative values,
/// then the digits of the magnitude.
pub open spec fn int_text(n: int) -> Seq<char> {
    if n < 0 {
        seq!['-'] + dec_digits(-n)
    } else {
        dec_digits(n)
    }
}

/// The text of a vector of exact integers: the elements' decimal texts,
/// separated by comma and space, between round brackets.
pub open spec fn join_comma(s: Seq<int>) -> Seq<char>
    decreases s.len(),
{
    if s.len() == 0 {
        Seq::empty()
    } else if s.len() == 1 {
        int_text(s[0])
    } else {
        join_comma(s.drop_last()) + seq![',', ' '] + int_text(s.last())
    }
}

/// The text of a vector: its joined elements between round brackets.
pub open spec fn vec_text(s: Seq<int>) -> Seq<char> {
    seq!['('] + join_comma(s) + seq![')']
}

/// The text of one determinant entry: a scalar's decimal text, or a
/// vector's bracketed text.
pub open spec fn ent_text(e: SpecNum) -> Seq<char> {
    match e {
        SpecNum::Scalar(x) => int_text(x),
        SpecNum::VectorValue(v) => vec_text(v),
    }
}

/// The widest entry text in column `i` over the first `k` rows.
pub open spec fn width_upto(g: Seq<Seq<SpecNum>>, i: int, k: int) -> int
    decreases k,
{
    if k <= 0 {
        0
    } else {
        let w = width_upto(g, i, k - 1);
        let l = ent_text(g[k - 1][i]).len() as int;
        if l > w {
            l
        } else {
            w
        }
    }
}

/// The width of column `i`: the widest entry text in it.
pub open spec fn col_w(g: Seq<Seq<SpecNum>>, i: int) -> int {
    width_upto(g, i, g.len() as int)
}

/// A run of blanks of the given length.
pub open spec fn spaces(k: int) -> Seq<char> {
    Seq::new(
        (if k > 0 {
            k
        } else {
            0
        }) as nat,
        |i: int| ' ',
    )
}

/// An entry text padded on the left with blanks to the given width.
pub open spec fn padded(e: SpecNum, w: int) -> Seq<char> {
    spaces(w - ent_text(e).len()) + ent_text(e)
}

/// The first `i` cells of row `j`, each padded to its column's width and
/// separated by single blanks.
pub open spec fn cells_upto(g: Seq<Seq<SpecNum>>, j: int, i: int) -> Seq<char>
    decreases i,
{
    if i <= 0 {
        Seq::empty()
    } else if i == 1 {
        padded(g[j][0], col_w(g, 0))
    } else {
        cells_upto(g, j, i - 1) + seq![' '] + padded(g[j][i - 1], col_w(g, i - 1))
    }
}

/// One rendered row: its padded cells between vertical bars.
pub open spec fn line_text(g: Seq<Seq<SpecNum>>, j: int) -> Seq<char> {
    seq!['|', ' '] + cells_upto(g, j, g[j].len() as int) + seq![' ', '|']
}

/// The first `k` rendered rows, separated by line breaks.
pub open spec fn lines_upto(g: Seq<Seq<SpecNum>>, k: int) -> Seq<char>
    decreases k,
{
    if k <= 0 {
        Seq::empty()
    } else if k == 1 {
        line_text(g, 0)
    } else {
        lines_upto(g, k - 1) + seq!['\n'] + line_text(g, k - 1)
    }
}

/// The full rendered table: every row between bars, the columns aligned
/// to their widest entry; the empty grid renders as a bare pair of bars.
pub open spec fn table_text(g: Seq<Seq<SpecNum>>) -> Seq<char> {
    if g.len() == 0 {
        seq!['|', ' ', '|']
    } else {
        lines_upto(g, g.len() as int)
    }
}

/// Relies on `String::from_utf8`: a buffer of plain character codes
/// decodes to exactly those characters.
#[verifier::external_body]
fn ascii_to_string(b: Vec<u8>) -> (s: String)
    requires
        all_ascii(b@),
    ensures
        s@ == chars_of(b@),
{
    match String::from_utf8(b) {
        Ok(s) => s,
        Err(_) => String::new(),
    }
}

/// The decimal byte text of an integer, as `int_text` describes it.
fn render_i64(x: i64) -> (r: Vec<u8>)
    ensures
        chars_of(r@) == int_text(x as int),
        all_ascii(r@),
{
    let neg = x < 0;
    let wide: i128 = x as i128;
    let m: u64 = if neg {
        (-wide) as u64
    } else {
        wide as u64
    };
    let ghost m0 = m;
    let mut buf: Vec<u8> = Vec::new();
    if m == 0 {
        buf.push(48);
        proof {
            assert(chars_of(buf@) =~= dec_digits(0));
        }
    } else {
        let mut rest: u64 = m;
        while rest > 0
            invariant
                0 <= rest <= m0,
                rest > 0 ==> dec_digits(m0 as int) =~= dec_digits(rest as int) + chars_of(buf@),
                rest == 0 ==> dec_digits(m0 as int) =~= chars_of(buf@),
                all_ascii(buf@),
            decreases rest,
        {
            let d = (rest % 10) as u8 + 48;
            let ghost old_buf = buf@;
            let ghost old_rest = rest as int;
            buf.insert(0, d);
            proof {
                assert(chars_of(buf@) =~= seq![(d as char)] + chars_of(old_buf));
            }
            rest = rest / 10;
            proof {
                if old_rest < 10 {
                    assert(dec_digits(old_rest) =~= seq![(d as char)]);
                    assert(dec_digits(m0 as int) =~= chars_of(buf@));
                } else {
                    assert(dec_digits(old_rest) =~= dec_digits(old_rest / 10) + seq![
                        (d as char),
                    ]);
                    assert(dec_digits(rest as int) + chars_of(buf@) =~= (dec_digits(rest as int)
                        + seq![(d as char)]) + chars_of(old_buf));
                    assert(dec_digits(m0 as int) =~= dec_digits(rest as int) + chars_of(buf@));
                }
            }
        }
    }
    proof {
        assert(chars_of(buf@) == dec_digits(m0 as int));
    }
    if neg {
        let ghost old_buf = buf@;
        buf.insert(0, 45);
        proof {
            assert(chars_of(buf@) =~= seq!['-'] + chars_of(old_buf));
            assert(chars_of(buf@) =~= int_text(x as int));
        }
    } else {
        proof {
            assert(chars_of(buf@) =~= int_text(x as int));
        }
    }
    buf
}

/// The byte text of a buffer of integers, joined as `vec_text` describes.
fn render_values(v: &Vec<i64>) -> (r: Vec<u8>)
    ensures
        chars_of(r@) == vec_text(crate::vector::ints(v@)),
        all_ascii(r@),
{
    let ghost s = crate::vector::ints(v@);
    let mut buf: Vec<u8> = Vec::new();
    buf.push(40);
    let mut i: usize = 0;
    while i < v.len()
        invariant
            s == crate::vector::ints(v@),
            0 <= i <= v@.len(),
            chars_of(buf@) == seq!['('] + join_comma(s.take(i as int)),
            all_ascii(buf@),
        decreases v@.len() - i,
    {
        let ghost old_buf = buf@;
        if i > 0 {
            buf.push(44);
            buf.push(32);
        }
        let mut cell = render_i64(v[i]);
        let ghost mid_buf = buf@;
        let ghost cellg = cell@;
        buf.append(&mut cell);
        proof {
            let t = s.take(i as int + 1);
            assert(t.drop_last() =~= s.take(i as int));
            assert(t.last() == s[i as int]);
            assert(chars_of(buf@) =~= chars_of(mid_buf) + chars_of(cellg));
            if i == 0 {
                assert(join_comma(t) == int_text(s[0]));
                assert(chars_of(buf@) =~= seq!['('] + join_comma(t));
            } else {
                assert(chars_of(mid_buf) =~= chars_of(old_buf) + seq![',', ' ']);
                assert(join_comma(t) == join_comma(s.take(i as int)) + seq![',', ' '] + int_text(
                    s[i as int],
                ));
                assert(chars_of(buf@) =~= seq!['('] + join_comma(t));
            }
        }
        i += 1;
    }
    let ghost old_buf = buf@;
    buf.push(41);
    proof {
        assert(s.take(s.len() as int) =~= s);
        assert(chars_of(buf@) =~= chars_of(old_buf) + seq![')']);
        assert(chars_of(buf@) =~= vec_text(s));
    }
    buf
}

impl Vector {
    /// The vector's text: its elements' decimal texts, separated by comma
    /// and space, between round brackets.
    pub fn render(&self) -> (s: String)
        ensures
            s@ == vec_text(crate::vector::ints(self@)),
    {
        ascii_to_string(render_values(self.get_val()))
    }
}

impl DeterNum {
    /// The entry's text: a scalar's decimal text, or a vector's bracketed
    /// text.
    pub fn render(&self) -> (s: String)
        ensures
            s@ == ent_text(self@),
    {
        match self {
            DeterNum::Scalar(x) => ascii_to_string(render_i64(*x)),
            DeterNum::VectorValue(v) => v.render(),
        }
    }
}

/// The text of a matrix: its rows' bracketed texts, each on an indented
/// line of its own, between a `Matrix[` head and a `]` foot.
pub open spec fn mat_rows_text(m: Seq<Seq<i64>>, k: int) -> Seq<char>
    decreases k,
{
    if k <= 0 {
        Seq::empty()
    } else {
        mat_rows_text(m, k - 1) + seq!['\n', ' ', ' ', ' ', ' '] + vec_text(
            m[k - 1].map_values(|x: i64| x as int),
        )
    }
}

/// The full text of a matrix.
pub open spec fn mat_text(m: Seq<Seq<i64>>) -> Seq<char> {
    seq!['M', 'a', 't', 'r', 'i', 'x', '['] + mat_rows_text(m, m.len() as int) + seq!['\n', ']']
}

impl Matrix {
    /// The matrix's text: each row's bracketed elements on a line of its
    /// own.
    pub fn render(&self) -> (s: String)
        ensures
            s@ == mat_text(self@),
    {
        let mut out: Vec<u8> = Vec::new();
        out.push(77);
        out.push(97);
        out.push(116);
        out.push(114);
        out.push(105);
        out.push(120);
        out.push(91);
        proof {
            assert(chars_of(out@) =~= seq!['M', 'a', 't', 'r', 'i', 'x', '[']
                + mat_rows_text(self@, 0));
        }
        let rows = self.get_val();
        let mut j: usize = 0;
        while j < rows.len()
            invariant
                rows@.len() == self@.len(),
                forall|k: int| 0 <= k < self@.len() ==> (#[trigger] rows@[k])@ == self@[k],
                0 <= j <= self@.len(),
                all_ascii(out@),
                chars_of(out@) == seq!['M', 'a', 't', 'r', 'i', 'x', '['] + mat_rows_text(
                    self@,
                    j as int,
                ),
            decreases rows@.len() - j,
        {
            let ghost before = out@;
            out.push(10);
            out.push(32);
            out.push(32);
            out.push(32);
            out.push(32);
            let ghost mid = out@;
            let cell = render_values(&rows[j]);
            let ghost cellg = cell@;
            line_append(&mut out, cell);
            proof {
                assert(chars_of(mid) =~= chars_of(before) + seq!['\n', ' ', ' ', ' ', ' ']);
                assert(chars_of(out@) =~= chars_of(mid) + chars_of(cellg));
                assert(crate::vector::ints(rows@[j as int]@) =~= self@[j as int].map_values(
                    |x: i64| x as int,
                ));
                assert(chars_of(out@) =~= seq!['M', 'a', 't', 'r', 'i', 'x', '[']
                    + mat_rows_text(self@, j as int + 1));
            }
            j += 1;
        }
        let ghost done = out@;
        out.push(10);
        out.push(93);
        proof {
            assert(chars_of(out@) =~= chars_of(done) + seq!['\n', ']']);
            assert(chars_of(out@) =~= mat_text(self@));
        }
        ascii_to_string(out)
    }
}

impl Determinant {
    /// The grid's text: one line per row between vertical bars, every
    /// column padded on the left to its widest entry; the empty grid
    /// renders as a bare pair of bars.
    pub fn render(&self) -> (s: String)
        requires
            self.wf(),
        ensures
            s@ == table_text(self@),
    {
        let ghost g = self@;
        let rows = self.get_val();
        let n = rows.len();
        if n == 0 {
            let mut empty_buf: Vec<u8> = Vec::new();
            empty_buf.push(124);
            empty_buf.push(32);
            empty_buf.push(124);
            proof {
                assert(chars_of(empty_buf@) =~= table_text(g));
            }
            return ascii_to_string(empty_buf);
        }
        proof {
            assert(forall|j: int| 0 <= j < n ==> (#[trigger] g[j]).len() == n);
        }
        let mut words: Vec<Vec<Vec<u8>>> = Vec::new();
        let mut j: usize = 0;
        while j < n
            invariant
                g == self@,
                n == g.len(),
                forall|k: int| 0 <= k < n ==> (#[trigger] g[k]).len() == n,
                rows@.len() == n,
                grid_view(rows@) == g,
                0 <= j <= n,
                words@.len() == j,
                forall|k: int| 0 <= k < j ==> (#[trigger] words@[k])@.len() == n,
                forall|k: int, i: int| #![trigger words@[k]@[i]]
                    0 <= k < j && 0 <= i < n ==> chars_of(words@[k]@[i]@) == ent_text(g[k][i])
                        && all_ascii(words@[k]@[i]@),
            decreases n - j,
        {
            proof {
                assert(g[j as int] == rows@[j as int]@.map_values(|e: DeterNum| e@));
                assert(rows@[j as int]@.len() == n);
            }
            let row = &rows[j];
            let mut buf_row: Vec<Vec<u8>> = Vec::new();
            let mut i: usize = 0;
            while i < n
                invariant
                    g == self@,
                    n == g.len(),
                    0 <= j < n,
                    row@.len() == n,
                    row@.map_values(|e: DeterNum| e@) == g[j as int],
                    0 <= i <= n,
                    buf_row@.len() == i,
                    forall|l: int| #![trigger buf_row@[l]]
                        0 <= l < i ==> chars_of(buf_row@[l]@) == ent_text(g[j as int][l])
                            && all_ascii(buf_row@[l]@),
                decreases n - i,
            {
                let cell = match &row[i] {
                    DeterNum::Scalar(x) => render_i64(*x),
                    DeterNum::VectorValue(v) => render_values(v.get_val()),
                };
                proof {
                    assert(g[j as int][i as int] == row@[i as int]@);
                }
                buf_row.push(cell);
                i += 1;
            }
            words.push(buf_row);
            j += 1;
        }
        let mut widths: Vec<usize> = Vec::new();
        let mut i: usize = 0;
        while i < n
            invariant
                g == self@,
                n == g.len(),
                forall|k: int| 0 <= k < n ==> (#[trigger] g[k]).len() == n,
                words@.len() == n,
                forall|k: int| 0 <= k < n ==> (#[trigger] words@[k])@.len() == n,
                forall|k: int, l: int| #![trigger words@[k]@[l]]
                    0 <= k < n && 0 <= l < n ==> chars_of(words@[k]@[l]@) == ent_text(g[k][l])
                        && all_ascii(words@[k]@[l]@),
                0 <= i <= n,
                widths@.len() == i,
                forall|l: int| 0 <= l < i ==> #[trigger] widths@[l] == col_w(g, l),
            decreases n - i,
        {
            let mut w: usize = 0;
            let mut j2: usize = 0;
            while j2 < n
                invariant
                    g == self@,
                    n == g.len(),
                    forall|k: int| 0 <= k < n ==> (#[trigger] g[k]).len() == n,
                    words@.len() == n,
                    forall|k: int| 0 <= k < n ==> (#[trigger] words@[k])@.len() == n,
                    forall|k: int, l: int| #![trigger words@[k]@[l]]
                        0 <= k < n && 0 <= l < n ==> chars_of(words@[k]@[l]@) == ent_text(
                            g[k][l],
                        ) && all_ascii(words@[k]@[l]@),
                    0 <= i < n,
                    0 <= j2 <= n,
                    w == width_upto(g, i as int, j2 as int),
                decreases n - j2,
            {
                proof {
                    assert(chars_of(words@[j2 as int]@[i as int]@).len() == words@[j2 as int]@[i
                        as int]@.len());
                }
                let l = words[j2][i].len();
                if l > w {
                    w = l;
                }
                j2 += 1;
            }
            widths.push(w);
            i += 1;
        }
        let mut out: Vec<u8> = Vec::new();
        let mut j: usize = 0;
        while j < n
            invariant
                g == self@,
                n == g.len(),
                forall|k: int| 0 <= k < n ==> (#[trigger] g[k]).len() == n,
                words@.len() == n,
                forall|k: int| 0 <= k < n ==> (#[trigger] words@[k])@.len() == n,
                forall|k: int, l: int| #![trigger words@[k]@[l]]
                    0 <= k < n && 0 <= l < n ==> chars_of(words@[k]@[l]@) == ent_text(g[k][l])
                        && all_ascii(words@[k]@[l]@),
                widths@.len() == n,
                forall|l: int| 0 <= l < n ==> #[trigger] widths@[l] == col_w(g, l),
                0 <= j <= n,
                all_ascii(out@),
                j == 0 ==> out@.len() == 0,
                j > 0 ==> chars_of(out@) == lines_upto(g, j as int),
            decreases n - j,
        {
            let mut line: Vec<u8> = Vec::new();
            line.push(124);
            line.push(32);
            proof {
                assert(chars_of(line@) =~= seq!['|', ' '] + cells_upto(g, j as int, 0));
            }
            let mut i2: usize = 0;
            while i2 < n
                invariant
                    g == self@,
                    n == g.len(),
                    forall|k: int| 0 <= k < n ==> (#[trigger] g[k]).len() == n,
                    words@.len() == n,
                    forall|k: int| 0 <= k < n ==> (#[trigger] words@[k])@.len() == n,
                    forall|k: int, l: int| #![trigger words@[k]@[l]]
                        0 <= k < n && 0 <= l < n ==> chars_of(words@[k]@[l]@) == ent_text(
                            g[k][l],
                        ) && all_ascii(words@[k]@[l]@),
                    widths@.len() == n,
                    forall|l: int| 0 <= l < n ==> #[trigger] widths@[l] == col_w(g, l),
                    0 <= j < n,
                    0 <= i2 <= n,
                    all_ascii(line@),
                    chars_of(line@) == seq!['|', ' '] + cells_upto(g, j as int, i2 as int),
                decreases n - i2,
            {
                let ghost before = line@;
                if i2 > 0 {
                    line.push(32);
                }
                let ghost sep_done = line@;
                let target = widths[i2];
                let have = words[j][i2].len();
                proof {
                    assert(chars_of(words@[j as int]@[i2 as int]@).len() == have);
                    assert(ent_text(g[j as int][i2 as int]).len() == have);
                    assert(width_upto(g, i2 as int, n as int) >= chars_of(
                        words@[j as int]@[i2 as int]@,
                    ).len()) by {
                        lemma_width_upto_bound(g, i2 as int, j as int, n as int);
                    }
                }
                let mut pad: usize = have;
                while pad < target
                    invariant
                        0 <= j < n,
                        0 <= i2 < n,
                        have <= pad <= target,
                        all_ascii(line@),
                        chars_of(line@) == chars_of(sep_done) + spaces(pad - have),
                    decreases target - pad,
                {
                    let ghost lb = line@;
                    line.push(32);
                    proof {
                        assert(chars_of(line@) =~= chars_of(lb).push(' '));
                        assert(chars_of(sep_done) + spaces(pad + 1 - have) =~= chars_of(line@));
                    }
                    pad += 1;
                }
                proof {
                    assert(chars_of(line@) =~= chars_of(sep_done) + spaces(target - have));
                }
                let mut cell = words[j][i2].clone();
                let ghost cellg = cell@;
                proof {
                    assert(cellg =~= words@[j as int]@[i2 as int]@);
                }
                let ghost padded_done = line@;
                line.append(&mut cell);
                proof {
                    let jj = j as int;
                    let ii = i2 as int;
                    assert(chars_of(line@) =~= chars_of(padded_done) + chars_of(cellg));
                    assert(chars_of(line@) =~= chars_of(sep_done) + padded(g[jj][ii], col_w(
                        g,
                        ii,
                    )));
                    if i2 == 0 {
                        assert(cells_upto(g, jj, 1) == padded(g[jj][0], col_w(g, 0)));
                        assert(chars_of(line@) =~= seq!['|', ' '] + cells_upto(g, jj, 1));
                    } else {
                        assert(chars_of(sep_done) =~= chars_of(before) + seq![' ']);
                        assert(cells_upto(g, jj, ii + 1) == cells_upto(g, jj, ii) + seq![' ']
                            + padded(g[jj][ii], col_w(g, ii)));
                        assert(chars_of(line@) =~= seq!['|', ' '] + cells_upto(g, jj, ii + 1));
                    }
                }
                i2 += 1;
            }
            let ghost cells_done = line@;
            line.push(32);
            line.push(124);
            proof {
                assert(chars_of(line@) =~= chars_of(cells_done) + seq![' ', '|']);
                assert(chars_of(line@) =~= line_text(g, j as int));
            }
            let ghost out_before = out@;
            let ghost lineg = line@;
            if j > 0 {
                out.push(10);
            }
            let ghost out_mid = out@;
            line_append(&mut out, line);
            proof {
                assert(chars_of(out@) =~= chars_of(out_mid) + chars_of(lineg));
                if j == 0 {
                    assert(chars_of(out@) =~= lines_upto(g, 1));
                } else {
                    assert(chars_of(out_mid) =~= chars_of(out_before) + seq!['\n']);
                    assert(chars_of(out@) =~= lines_upto(g, j as int) + seq!['\n'] + line_text(
                        g,
                        j as int,
                    ));
                    assert(chars_of(out@) =~= lines_upto(g, j as int + 1));
                }
            }
            j += 1;
        }
        ascii_to_string(out)
    }
}

/// Moves the bytes of `src` onto the end of `dst`.
fn line_append(dst: &mut Vec<u8>, src: Vec<u8>)
    ensures
        final(dst)@ == old(dst)@ + src@,
{
    let mut s = src;
    dst.append(&mut s);
}

/// The width of a column is at least as large as any one of its entries.
proof fn lemma_width_upto_bound(g: Seq<Seq<SpecNum>>, i: int, j: int, k: int)
    requires
        0 <= j < k,
    ensures
        width_upto(g, i, k) >= ent_text(g[j][i]).len(),
        width_upto(g, i, k) >= 0,
    decreases k,
{
    if j < k - 1 {
        lemma_width_upto_bound(g, i, j, k - 1);
    }
}

} // verus!
