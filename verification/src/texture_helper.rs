//! Triangle lattices for texture-mapping polygons.
//!
//! Each polygon is split into one big triangle per edge (edge + center), each subdivided into a
//! lattice of smaller triangles. The lattice points of one big triangle are numbered row by
//! row, from the edge (`divisions + 1` points) to the center (one point), so a big triangle has
//! `triangular_number(divisions + 1)` points; the big triangles' points follow one another.
use vstd::prelude::*;

verus! {

#[derive(Clone, Debug, Default)]
pub struct TextureHelper {
    /// Triangle element indices into the texture coordinates, for each level of detail
    /// (the first entry has the least detail).
    pub element_indices: Vec<Vec<u32>>,
}

pub open spec fn triangular(n: int) -> int {
    n * (n + 1) / 2
}

/// The number of divisions of a big triangle's edge at `levels` levels of detail.
pub fn num_div(levels: u32) -> (r: usize)
    requires
        levels < usize::BITS,
    ensures
        r == vstd::arithmetic::power2::pow2(levels as nat),
{
    proof {
        vstd::bits::lemma_usize_pow2_no_overflow(levels as nat);
        vstd::bits::lemma_usize_shl_is_mul(1, levels as usize);
    }
    1usize << (levels as usize)
}

pub fn triangular_number(n: usize) -> (r: usize)
    requires
        n * (n + 1) <= usize::MAX,
    ensures
        r == triangular(n as int),
{
    assert(n < usize::MAX) by (nonlinear_arith)
        requires
            n * (n + 1) <= usize::MAX,
    ;
    let m = n + 1;
    n * m / 2
}

/// Where row `i` of a lattice with `d` divisions starts: rows hold `d + 1`, `d`, ... points.
pub open spec fn row_start(d: int, i: int) -> int
    decreases i,
{
    if i <= 0 {
        0
    } else {
        row_start(d, i - 1) + (d + 1 - (i - 1))
    }
}

/// The upward triangles of a row, from column `j` on (columns step by `stride`, below `w`).
pub open spec fn up_triangles(s1: int, s2: int, stride: int, w: int, j: int) -> Seq<u32>
    decreases (if j < w {
        w - j
    } else {
        0
    }),
{
    if stride <= 0 || j >= w {
        Seq::empty()
    } else {
        seq![(s1 + j) as u32, (s1 + j + stride) as u32, (s2 + j) as u32] + up_triangles(
            s1,
            s2,
            stride,
            w,
            j + stride,
        )
    }
}

/// The downward triangles of a row, from column `j` on.
pub open spec fn down_triangles(s1: int, s2: int, stride: int, w: int, j: int) -> Seq<u32>
    decreases w - j,
{
    if stride <= 0 || j + stride >= w {
        Seq::empty()
    } else {
        seq![(s2 + j) as u32, (s1 + j + stride) as u32, (s2 + j + stride) as u32] + down_triangles(
            s1,
            s2,
            stride,
            w,
            j + stride,
        )
    }
}

/// The triangles of the rows from `i` on (rows step by `stride`, below `d`), points numbered
/// from `offset`.
pub open spec fn lattice_rows(d: int, stride: int, offset: int, i: int) -> Seq<u32>
    decreases (if i < d {
        d - i
    } else {
        0
    }),
{
    if stride <= 0 || i >= d {
        Seq::empty()
    } else {
        let s1 = offset + row_start(d, i);
        let s2 = offset + row_start(d, i + stride);
        up_triangles(s1, s2, stride, d - i, 0) + down_triangles(s1, s2, stride, d - i, 0)
            + lattice_rows(d, stride, offset, i + stride)
    }
}

/// The triangles of the big triangles from `b` on, out of `n`.
pub open spec fn lattices(n: int, d: int, stride: int, b: int) -> Seq<u32>
    decreases n - b,
{
    if b >= n {
        Seq::empty()
    } else {
        lattice_rows(d, stride, b * triangular(d + 1), 0) + lattices(n, d, stride, b + 1)
    }
}

/// The step between lattice rows and columns at a level of detail.
pub open spec fn lod_stride(max_div: int, lod: nat) -> int {
    max_div / (vstd::arithmetic::power2::pow2(lod) as int)
}

/// Whether every row of the lattice has room for a step of `stride` rows.
pub open spec fn rows_fit(d: int, stride: int) -> bool {
    d == 0 || (stride >= 1 && (d - 1) % stride + 2 >= stride)
}

proof fn lemma_row_start(d: int, i: int)
    requires
        0 <= i,
        0 <= d,
    ensures
        2 * row_start(d, i) == i * (2 * d + 3 - i),
    decreases i,
{
    if i > 0 {
        lemma_row_start(d, i - 1);
        let x = row_start(d, i - 1);
        let y = row_start(d, i);
        assert(y == x + (d + 1 - (i - 1)));
        assert(2 * y == i * (2 * d + 3 - i)) by (nonlinear_arith)
            requires
                2 * x == (i - 1) * (2 * d + 3 - (i - 1)),
                y == x + (d + 1 - (i - 1)),
        ;
    } else {
        assert(i * (2 * d + 3 - i) == 0) by (nonlinear_arith)
            requires
                i == 0,
        ;
    }
}

/// Rows start no later than the lattice's last point.
proof fn lemma_row_start_bound(d: int, i: int)
    requires
        0 <= i <= d + 1,
        0 <= d,
    ensures
        0 <= row_start(d, i) <= triangular(d + 1),
{
    lemma_row_start(d, i);
    lemma_row_start(d, d + 1);
    assert(0 <= i * (2 * d + 3 - i) <= (d + 1) * (2 * d + 3 - (d + 1))) by (nonlinear_arith)
        requires
            0 <= i <= d + 1,
            0 <= d,
    ;
    assert((d + 1) * (2 * d + 3 - (d + 1)) == (d + 1) * (d + 2)) by (nonlinear_arith);
}

/// A row that starts below `d` has room for `stride` more rows.
proof fn lemma_row_room(d: int, stride: int, m: int)
    requires
        rows_fit(d, stride),
        d > 0,
        0 <= m,
        m * stride < d,
    ensures
        m * stride + stride <= d + 1,
{
    let q = (d - 1) / stride;
    let r = (d - 1) % stride;
    assert(d - 1 == q * stride + r && 0 <= r < stride) by (nonlinear_arith)
        requires
            stride >= 1,
            q == (d - 1) / stride,
            r == (d - 1) % stride,
    ;
    assert(m <= q) by (nonlinear_arith)
        requires
            m * stride <= q * stride + r,
            0 <= r < stride,
            stride >= 1,
            0 <= m,
    ;
    assert(m * stride <= q * stride) by (nonlinear_arith)
        requires
            m <= q,
            stride >= 1,
    ;
}

/// Indices into the lattice points forming triangles (each 3 indices is one triangle), at a
/// level of detail (0 is coarsest): rows and columns step by `max_div / 2^lod`.
pub fn texture_elements(num_base_triangles: usize, lod: u32, max_div: usize) -> (r: Vec<u32>)
    requires
        lod < usize::BITS,
        max_div > 0 ==> lod_stride(max_div as int, lod as nat) >= 1,
        rows_fit(max_div as int, lod_stride(max_div as int, lod as nat)),
        (max_div + 1) * (max_div + 2) <= usize::MAX,
        num_base_triangles * triangular(max_div + 1) + 2 * max_div <= usize::MAX,
    ensures
        r@ == lattices(
            num_base_triangles as int,
            max_div as int,
            lod_stride(max_div as int, lod as nat),
            0,
        ),
{
    let divisions = max_div;
    let p = num_div(lod);
    proof {
        vstd::arithmetic::power2::lemma_pow2_pos(lod as nat);
    }
    let stride = divisions / p;
    assert(stride <= divisions) by (nonlinear_arith)
        requires
            stride == divisions / p,
            p >= 1,
    ;
    let num_verts_per_segment = triangular_number(divisions + 1);
    let ghost d = divisions as int;
    let ghost tn = triangular(d + 1);
    let ghost n = num_base_triangles as int;

    let mut result: Vec<u32> = Vec::new();
    let mut offset: usize = 0;
    let mut b: usize = 0;
    while b < num_base_triangles
        invariant
            0 <= b <= n,
            n == num_base_triangles,
            d == divisions,
            tn == triangular(d + 1),
            tn >= 0,
            num_verts_per_segment == tn,
            stride == lod_stride(divisions as int, lod as nat),
            stride <= divisions,
            divisions > 0 ==> stride >= 1,
            rows_fit(d, stride as int),
            n * tn + 2 * d <= usize::MAX,
            offset == b * tn,
            lattices(n, d, stride as int, 0) == result@ + lattices(n, d, stride as int, b as int),
        decreases num_base_triangles - b,
    {
        assert(offset + tn <= n * tn) by (nonlinear_arith)
            requires
                offset == b * tn,
                b + 1 <= n,
                tn >= 0,
        ;
        let ghost before = result@;
        let mut start2 = offset;
        let mut i: usize = 0;
        let ghost mut m: int = 0;
        proof {
            lemma_row_start_bound(d, 0);
        }
        while i < divisions
            invariant
                0 <= i,
                i == m * stride,
                0 <= m,
                stride <= divisions,
                divisions > 0 ==> stride >= 1,
                i < divisions ==> i + stride <= divisions + 1,
                i <= divisions + stride,
                d == divisions,
                tn == triangular(d + 1),
                rows_fit(d, stride as int),
                offset + tn + 2 * d <= usize::MAX,
                start2 == offset + row_start(d, i as int),
                before + lattice_rows(d, stride as int, offset as int, 0) == result@ + lattice_rows(
                    d,
                    stride as int,
                    offset as int,
                    i as int,
                ),
            decreases divisions + stride - i,
        {
            let start1 = start2;
            let mut temp = divisions - i + 1;
            let mut k: usize = 0;
            proof {
                lemma_row_start_bound(d, i as int);
                lemma_row_start_bound(d, i + stride);
            }
            while k < stride
                invariant
                    0 <= k <= stride,
                    d == divisions,
                    tn == triangular(d + 1),
                    i + stride <= divisions + 1,
                    temp == divisions - i + 1 - k,
                    start2 == offset + row_start(d, i + k),
                    offset + tn + 2 * d <= usize::MAX,
                    start1 == offset + row_start(d, i as int),
                decreases stride - k,
            {
                proof {
                    lemma_row_start_bound(d, i + k + 1);
                    assert(row_start(d, i + k + 1) == row_start(d, i + k) + (d + 1 - (i + k)));
                }
                start2 = start2 + temp;
                temp = temp - 1;
                k = k + 1;
            }
            let ghost s1 = start1 as int;
            let ghost s2 = start2 as int;
            assert(s2 == offset + row_start(d, i + stride));
            let w = divisions - i;
            let ghost r0 = result@;
            let mut j: usize = 0;
            while j < w
                invariant
                    w == divisions - i,
                    stride >= 1,
                    s1 == start1,
                    s2 == start2,
                    start1 + w + stride <= usize::MAX,
                    start2 + w <= usize::MAX,
                    j < w + stride,
                    r0 + up_triangles(s1, s2, stride as int, w as int, 0) == result@ + up_triangles(
                        s1,
                        s2,
                        stride as int,
                        w as int,
                        j as int,
                    ),
                decreases w + stride - j,
            {
                let ghost rb = result@;
                result.push((start1 + j) as u32);
                result.push((start1 + j + stride) as u32);
                result.push((start2 + j) as u32);
                assert(result@ =~= rb + seq![
                    (s1 + j) as u32,
                    (s1 + j + stride) as u32,
                    (s2 + j) as u32,
                ]);
                j = j + stride;
            }
            let ghost r1 = result@;
            let mut j: usize = 0;
            while j + stride < w
                invariant
                    w == divisions - i,
                    stride >= 1,
                    s1 == start1,
                    s2 == start2,
                    start1 + w + stride <= usize::MAX,
                    start2 + w <= usize::MAX,
                    j < w,
                    r1 + down_triangles(s1, s2, stride as int, w as int, 0) == result@
                        + down_triangles(s1, s2, stride as int, w as int, j as int),
                decreases w - j,
            {
                let ghost rb = result@;
                result.push((start2 + j) as u32);
                result.push((start1 + j + stride) as u32);
                result.push((start2 + j + stride) as u32);
                assert(result@ =~= rb + seq![
                    (s2 + j) as u32,
                    (s1 + j + stride) as u32,
                    (s2 + j + stride) as u32,
                ]);
                j = j + stride;
            }
            proof {
                assert(lattice_rows(d, stride as int, offset as int, i as int) == up_triangles(
                    s1,
                    s2,
                    stride as int,
                    w as int,
                    0,
                ) + down_triangles(s1, s2, stride as int, w as int, 0) + lattice_rows(
                    d,
                    stride as int,
                    offset as int,
                    i + stride,
                ));
            }
            i = i + stride;
            proof {
                assert(i == (m + 1) * stride) by (nonlinear_arith)
                    requires
                        i == m * stride + stride,
                ;
                m = m + 1;
                if i < divisions {
                    lemma_row_room(d, stride as int, m);
                }
                lemma_row_start_bound(d, i as int);
            }
        }
        assert(lattices(n, d, stride as int, b as int) == lattice_rows(
            d,
            stride as int,
            offset as int,
            0,
        ) + lattices(n, d, stride as int, b + 1));
        assert(offset + tn == (b + 1) * tn) by (nonlinear_arith)
            requires
                offset == b * tn,
        ;
        offset = offset + num_verts_per_segment;
        b = b + 1;
    }
    result
}

/// The triangle indices for each level of detail, coarsest first, for a polygon of
/// `num_base_triangles` edges.
pub fn calc_element_indices(num_base_triangles: usize, levels: u32) -> (r: Vec<Vec<u32>>)
    requires
        levels < usize::BITS,
        (vstd::arithmetic::power2::pow2(levels as nat) + 1) * (vstd::arithmetic::power2::pow2(
            levels as nat,
        ) + 2) <= usize::MAX,
        num_base_triangles * triangular(vstd::arithmetic::power2::pow2(levels as nat) + 1int) + 2
            * vstd::arithmetic::power2::pow2(levels as nat) <= usize::MAX,
    ensures
        r@.len() == levels + 1,
        forall|lod: int|
            0 <= lod <= levels ==> #[trigger] r@[lod]@ == lattices(
                num_base_triangles as int,
                vstd::arithmetic::power2::pow2(levels as nat) as int,
                vstd::arithmetic::power2::pow2((levels - lod) as nat) as int,
                0,
            ),
{
    let num_div = num_div(levels);
    let mut r: Vec<Vec<u32>> = Vec::new();
    let mut lod: u32 = 0;
    while lod <= levels
        invariant
            levels < usize::BITS,
            num_div == vstd::arithmetic::power2::pow2(levels as nat),
            (num_div + 1) * (num_div + 2) <= usize::MAX,
            num_base_triangles * triangular(num_div + 1) + 2 * num_div <= usize::MAX,
            lod <= levels + 1,
            r@.len() == lod,
            forall|l: int|
                0 <= l < lod ==> #[trigger] r@[l]@ == lattices(
                    num_base_triangles as int,
                    num_div as int,
                    vstd::arithmetic::power2::pow2((levels - l) as nat) as int,
                    0,
                ),
        decreases levels + 1 - lod,
    {
        proof {
            lemma_pow2_split(levels as nat, lod as nat);
        }
        r.push(texture_elements(num_base_triangles, lod, num_div));
        lod = lod + 1;
    }
    r
}

/// `2^levels / 2^lod == 2^(levels - lod)`, at least 1.
proof fn lemma_pow2_split(levels: nat, lod: nat)
    requires
        lod <= levels,
    ensures
        vstd::arithmetic::power2::pow2(levels) / vstd::arithmetic::power2::pow2(lod)
            == vstd::arithmetic::power2::pow2((levels - lod) as nat),
        vstd::arithmetic::power2::pow2((levels - lod) as nat) >= 1,
        rows_fit(
            vstd::arithmetic::power2::pow2(levels) as int,
            vstd::arithmetic::power2::pow2((levels - lod) as nat) as int,
        ),
{
    let a = vstd::arithmetic::power2::pow2(lod);
    let c = vstd::arithmetic::power2::pow2((levels - lod) as nat);
    vstd::arithmetic::power2::lemma_pow2_adds(lod, (levels - lod) as nat);
    vstd::arithmetic::power2::lemma_pow2_pos(lod);
    vstd::arithmetic::power2::lemma_pow2_pos((levels - lod) as nat);
    assert(a * c / a == c) by (nonlinear_arith)
        requires
            a > 0,
    ;
    let d = a * c;
    assert(d - 1 == (a - 1) * c + (c - 1)) by (nonlinear_arith)
        requires
            d == a * c,
    ;
    assert((a - 1) * c >= 0) by (nonlinear_arith)
        requires
            a >= 1,
            c >= 1,
    ;
    vstd::arithmetic::div_mod::lemma_fundamental_div_mod_converse(
        d - 1,
        c as int,
        a - 1,
        c - 1,
    );
}

proof fn lemma_up_count(s1: int, s2: int, stride: int, w: int, j: int, k: int)
    requires
        stride >= 1,
        k >= 0,
        w - j == k * stride,
    ensures
        up_triangles(s1, s2, stride, w, j).len() == 3 * k,
    decreases k,
{
    if k > 0 {
        assert(w - (j + stride) == (k - 1) * stride) by (nonlinear_arith)
            requires
                w - j == k * stride,
        ;
        assert(j < w) by (nonlinear_arith)
            requires
                w - j == k * stride,
                k >= 1,
                stride >= 1,
        ;
        lemma_up_count(s1, s2, stride, w, j + stride, k - 1);
    } else {
        assert(w - j == 0) by (nonlinear_arith)
            requires
                w - j == k * stride,
                k == 0,
        ;
    }
}

proof fn lemma_down_count(s1: int, s2: int, stride: int, w: int, j: int, k: int)
    requires
        stride >= 1,
        k >= 1,
        w - j == k * stride,
    ensures
        down_triangles(s1, s2, stride, w, j).len() == 3 * (k - 1),
    decreases k,
{
    assert(w - (j + stride) == (k - 1) * stride) by (nonlinear_arith)
        requires
            w - j == k * stride,
    ;
    if k > 1 {
        assert(j + stride < w) by (nonlinear_arith)
            requires
                w - (j + stride) == (k - 1) * stride,
                k >= 2,
                stride >= 1,
        ;
        lemma_down_count(s1, s2, stride, w, j + stride, k - 1);
    } else {
        assert(w - (j + stride) == 0) by (nonlinear_arith)
            requires
                w - (j + stride) == (k - 1) * stride,
                k == 1,
        ;
    }
}

proof fn lemma_rows_count(d: int, stride: int, offset: int, i: int, k: int)
    requires
        stride >= 1,
        k >= 0,
        d - i == k * stride,
    ensures
        lattice_rows(d, stride, offset, i).len() == 3 * (k * k),
    decreases k,
{
    if k > 0 {
        assert(i < d) by (nonlinear_arith)
            requires
                d - i == k * stride,
                k >= 1,
                stride >= 1,
        ;
        assert(d - (i + stride) == (k - 1) * stride) by (nonlinear_arith)
            requires
                d - i == k * stride,
        ;
        let s1 = offset + row_start(d, i);
        let s2 = offset + row_start(d, i + stride);
        lemma_up_count(s1, s2, stride, d - i, 0, k);
        lemma_down_count(s1, s2, stride, d - i, 0, k);
        lemma_rows_count(d, stride, offset, i + stride, k - 1);
        assert(3 * k + 3 * (k - 1) + 3 * ((k - 1) * (k - 1)) == 3 * (k * k)) by (nonlinear_arith);
    } else {
        assert(d - i == 0) by (nonlinear_arith)
            requires
                d - i == k * stride,
                k == 0,
        ;
    }
}

/// A lattice whose step divides its divisions holds `(divisions / step)²` triangles (three
/// indices each) per big triangle.
pub proof fn lemma_lattice_size(n: int, d: int, stride: int, b: int)
    requires
        stride >= 1,
        d >= 0,
        d % stride == 0,
        0 <= b <= n,
    ensures
        lattices(n, d, stride, b).len() == 3 * (n - b) * ((d / stride) * (d / stride)),
    decreases n - b,
{
    let k = d / stride;
    assert(d == k * stride && k >= 0) by (nonlinear_arith)
        requires
            stride >= 1,
            d >= 0,
            d % stride == 0,
            k == d / stride,
    ;
    if b < n {
        lemma_rows_count(d, stride, b * triangular(d + 1), 0, k);
        lemma_lattice_size(n, d, stride, b + 1);
        assert(3 * (k * k) + 3 * (n - (b + 1)) * (k * k) == 3 * (n - b) * (k * k)) by (nonlinear_arith);
    } else {
        assert(3 * (n - b) * (k * k) == 0) by (nonlinear_arith)
            requires
                n - b == 0,
        ;
    }
}

/// Every index an up-triangle run writes is below `hi`.
proof fn lemma_up_below(s1: int, s2: int, stride: int, w: int, j: int, hi: int)
    requires
        stride >= 1,
        0 <= j <= w,
        (w - j) % stride == 0,
        0 <= s1,
        0 <= s2,
        s1 + w < hi,
        s2 + w - stride < hi,
        hi <= u32::MAX + 1,
    ensures
        forall|k: int|
            0 <= k < up_triangles(s1, s2, stride, w, j).len() ==> (#[trigger] up_triangles(
                s1,
                s2,
                stride,
                w,
                j,
            )[k] as int) < hi,
    decreases w - j,
{
    if j < w {
        assert(j + stride <= w) by (nonlinear_arith)
            requires
                (w - j) % stride == 0,
                j < w,
                stride >= 1,
        ;
        assert((w - (j + stride)) % stride == 0) by (nonlinear_arith)
            requires
                (w - j) % stride == 0,
                stride >= 1,
        ;
        lemma_up_below(s1, s2, stride, w, j + stride, hi);
        let head = seq![(s1 + j) as u32, (s1 + j + stride) as u32, (s2 + j) as u32];
        let rest = up_triangles(s1, s2, stride, w, j + stride);
        assert(up_triangles(s1, s2, stride, w, j) == head + rest);
        assert forall|k: int| 0 <= k < (head + rest).len() implies ((head + rest)[k] as int) < hi by {
            if k >= 3 {
                assert((head + rest)[k] == rest[k - 3]);
            }
        }
    }
}

/// Every index a down-triangle run writes is below `hi`.
proof fn lemma_down_below(s1: int, s2: int, stride: int, w: int, j: int, hi: int)
    requires
        stride >= 1,
        0 <= j <= w,
        (w - j) % stride == 0,
        0 <= s1,
        0 <= s2,
        s1 + w < hi,
        s2 + w - stride < hi,
        hi <= u32::MAX + 1,
    ensures
        forall|k: int|
            0 <= k < down_triangles(s1, s2, stride, w, j).len() ==> (#[trigger] down_triangles(
                s1,
                s2,
                stride,
                w,
                j,
            )[k] as int) < hi,
    decreases w - j,
{
    if j + stride < w {
        assert(j + 2 * stride <= w) by (nonlinear_arith)
            requires
                (w - j) % stride == 0,
                j + stride < w,
                stride >= 1,
        ;
        assert((w - (j + stride)) % stride == 0) by (nonlinear_arith)
            requires
                (w - j) % stride == 0,
                stride >= 1,
        ;
        lemma_down_below(s1, s2, stride, w, j + stride, hi);
        let head = seq![(s2 + j) as u32, (s1 + j + stride) as u32, (s2 + j + stride) as u32];
        let rest = down_triangles(s1, s2, stride, w, j + stride);
        assert(down_triangles(s1, s2, stride, w, j) == head + rest);
        assert forall|k: int| 0 <= k < (head + rest).len() implies ((head + rest)[k] as int) < hi by {
            if k >= 3 {
                assert((head + rest)[k] == rest[k - 3]);
            }
        }
    }
}

/// Every index of the rows from `i` on is a point of this big triangle's lattice.
proof fn lemma_rows_below(d: int, stride: int, offset: int, i: int)
    requires
        stride >= 1,
        0 <= i <= d,
        (d - i) % stride == 0,
        0 <= offset,
        offset + triangular(d + 1) <= u32::MAX + 1,
    ensures
        forall|k: int|
            0 <= k < lattice_rows(d, stride, offset, i).len() ==> (#[trigger] lattice_rows(
                d,
                stride,
                offset,
                i,
            )[k] as int) < offset + triangular(d + 1),
    decreases d - i,
{
    if i < d {
        let hi = offset + triangular(d + 1);
        assert(i + stride <= d) by (nonlinear_arith)
            requires
                (d - i) % stride == 0,
                i < d,
                stride >= 1,
        ;
        assert((d - (i + stride)) % stride == 0) by (nonlinear_arith)
            requires
                (d - i) % stride == 0,
                stride >= 1,
        ;
        lemma_row_start_bound(d, i + 1);
        lemma_row_start_bound(d, i);
        lemma_row_start_bound(d, i + stride);
        lemma_row_start_bound(d, i + stride + 1);
        assert(row_start(d, i + 1) == row_start(d, i) + (d + 1 - i));
        assert(row_start(d, i + stride + 1) == row_start(d, i + stride) + (d + 1 - (i + stride)));
        let s1 = offset + row_start(d, i);
        let s2 = offset + row_start(d, i + stride);
        let w = d - i;
        assert(w % stride == 0);
        lemma_up_below(s1, s2, stride, w, 0, hi);
        lemma_down_below(s1, s2, stride, w, 0, hi);
        lemma_rows_below(d, stride, offset, i + stride);
        let a = up_triangles(s1, s2, stride, w, 0);
        let b = down_triangles(s1, s2, stride, w, 0);
        let c = lattice_rows(d, stride, offset, i + stride);
        assert(lattice_rows(d, stride, offset, i) == a + b + c);
        assert forall|k: int| 0 <= k < (a + b + c).len() implies ((a + b + c)[k] as int) < hi by {
            if k < a.len() {
                assert((a + b + c)[k] == a[k]);
            } else if k < a.len() + b.len() {
                assert((a + b + c)[k] == b[k - a.len()]);
            } else {
                assert((a + b + c)[k] == c[k - a.len() - b.len()]);
            }
        }
    }
}

/// Every index of the big triangles from `b` on is below `bound` (at most `n` lattices).
proof fn lemma_lattices_below(n: int, d: int, stride: int, b: int)
    requires
        stride >= 1,
        d >= 0,
        d % stride == 0,
        0 <= b <= n,
        n * triangular(d + 1) <= u32::MAX + 1,
    ensures
        forall|k: int|
            0 <= k < lattices(n, d, stride, b).len() ==> (#[trigger] lattices(n, d, stride, b)[k]
                as int) < n * triangular(d + 1),
    decreases n - b,
{
    if b < n {
        let tn = triangular(d + 1);
        lemma_row_start_bound(d, 0);
        assert(tn >= 0);
        assert(0 <= b * tn && b * tn + tn <= n * tn) by (nonlinear_arith)
            requires
                0 <= b < n,
                tn >= 0,
        ;
        lemma_rows_below(d, stride, b * tn, 0);
        lemma_lattices_below(n, d, stride, b + 1);
        let x = lattice_rows(d, stride, b * tn, 0);
        let y = lattices(n, d, stride, b + 1);
        assert(lattices(n, d, stride, b) == x + y);
        assert forall|k: int| 0 <= k < (x + y).len() implies ((x + y)[k] as int) < n * tn by {
            if k >= x.len() {
                assert((x + y)[k] == y[k - x.len()]);
            }
        }
    }
}

/// The texture elements index lattice points only: each index is below the number of points,
/// `n` lattices of `triangular(d + 1)` points each (for a step that divides the divisions).
pub proof fn lemma_elements_index_points(n: int, d: int, stride: int)
    requires
        stride >= 1,
        d >= 0,
        n >= 0,
        d % stride == 0,
    ensures
        forall|k: int|
            0 <= k < lattices(n, d, stride, 0).len() ==> (#[trigger] lattices(n, d, stride, 0)[k]
                as int) < n * triangular(d + 1),
{
    if n * triangular(d + 1) <= u32::MAX + 1 {
        lemma_lattices_below(n, d, stride, 0);
    }
}

} // verus!
