use vstd::prelude::*;
use crate::chunk::copy_range;
use crate::error::DecodeError;

verus! {

/// The reconstructed byte at `x` of a Sub-filtered row `s`:
/// `Raw(x) = Sub(x) + Raw(x - bpp) mod 256`, where `Raw` before the row is 0.
pub open spec fn unsub_at(s: Seq<u8>, bpp: int, x: int) -> u8
    decreases x,
{
    if x < 0 || bpp <= 0 || x >= s.len() {
        0
    } else if x < bpp {
        s[x]
    } else {
        ((s[x] + unsub_at(s, bpp, x - bpp)) % 256) as u8
    }
}

/// A whole Sub-filtered row, reconstructed.
pub open spec fn unsub(s: Seq<u8>, bpp: int) -> Seq<u8> {
    Seq::new(s.len(), |x: int| unsub_at(s, bpp, x))
}

/// The Sub encoding of a raw row: `Sub(x) = Raw(x) - Raw(x - bpp) mod 256`.
pub open spec fn sub_encode(r: Seq<u8>, bpp: int) -> Seq<u8> {
    Seq::new(
        r.len(),
        |x: int|
            if x < bpp {
                r[x]
            } else {
                ((r[x] - r[x - bpp]) % 256) as u8
            },
    )
}

proof fn lemma_unsub_at_encoded(r: Seq<u8>, bpp: int, x: int)
    requires
        bpp > 0,
        0 <= x < r.len(),
    ensures
        unsub_at(sub_encode(r, bpp), bpp, x) == r[x],
    decreases x,
{
    if x >= bpp {
        lemma_unsub_at_encoded(r, bpp, x - bpp);
        let a = r[x] as int;
        let p = r[x - bpp] as int;
        assert((((a - p) % 256) + p) % 256 == a) by {
            if a >= p {
                assert((a - p) % 256 == a - p);
            } else {
                assert((a - p) % 256 == a - p + 256);
            }
        }
    }
}

/// Sub-filtering a row and reconstructing it gives the row back, for every
/// lookback distance `bpp` of at least one byte.
pub proof fn lemma_sub_round_trip(r: Seq<u8>, bpp: int)
    requires
        bpp > 0,
    ensures
        unsub(sub_encode(r, bpp), bpp) == r,
{
    assert forall|x: int| 0 <= x < r.len() implies unsub(sub_encode(r, bpp), bpp)[x] == r[x] by {
        lemma_unsub_at_encoded(r, bpp, x);
    }
    assert(unsub(sub_encode(r, bpp), bpp) =~= r);
}

/// Reverses the Sub filter on one row's data bytes, looking back `bpp` bytes.
pub fn unsub_row(scanline: &[u8], bpp: usize) -> (r: Vec<u8>)
    requires
        bpp > 0,
    ensures
        r@ == unsub(scanline@, bpp as int),
{
    let mut raws: Vec<u8> = Vec::new();
    let mut x: usize = 0;
    while x < scanline.len()
        invariant
            bpp > 0,
            x <= scanline@.len(),
            raws@ == unsub(scanline@, bpp as int).subrange(0, x as int),
        decreases scanline@.len() - x,
    {
        let prev: u8 = if x < bpp {
            0
        } else {
            raws[x - bpp]
        };
        let raw_x: u8 = ((scanline[x] as u16 + prev as u16) % 256) as u8;
        raws.push(raw_x);
        x = x + 1;
        proof {
            assert(raws@ =~= unsub(scanline@, bpp as int).subrange(0, x as int));
        }
    }
    proof {
        assert(raws@ =~= unsub(scanline@, bpp as int));
    }
    raws
}

/// Row `k` of `d`, selector byte included, when rows are `stride + 1` bytes.
pub open spec fn row_of(d: Seq<u8>, stride: int, k: int) -> Seq<u8> {
    d.subrange(k * (stride + 1), (k + 1) * (stride + 1))
}

/// One row's reconstructed data: selector 0 passes the bytes through,
/// selector 1 reverses Sub; any other selector is unsupported.
pub open spec fn defilter_row(row: Seq<u8>, bpp: int) -> Option<Seq<u8>> {
    if row[0] == 0 {
        Some(row.drop_first())
    } else if row[0] == 1 {
        Some(unsub(row.drop_first(), bpp))
    } else {
        None
    }
}

/// The reconstructed data of the first `n` rows of `d`, concatenated top to bottom.
pub open spec fn defilter_rows(d: Seq<u8>, stride: int, bpp: int, n: nat) -> Option<Seq<u8>>
    decreases n,
{
    if n == 0 {
        Some(Seq::empty())
    } else {
        match defilter_rows(d, stride, bpp, (n - 1) as nat) {
            Some(p) => match defilter_row(row_of(d, stride, n - 1), bpp) {
                Some(q) => Some(p + q),
                None => None,
            },
            None => None,
        }
    }
}

pub(crate) proof fn lemma_defilter_rows_len(d: Seq<u8>, stride: int, bpp: int, n: nat)
    requires
        stride >= 0,
        d.len() >= n * (stride + 1),
    ensures
        defilter_rows(d, stride, bpp, n) is Some ==> defilter_rows(d, stride, bpp, n)->Some_0.len()
            == n * stride,
    decreases n,
{
    if n > 0 {
        let m = (n - 1) as nat;
        assert(d.len() >= m * (stride + 1)) by (nonlinear_arith)
            requires
                d.len() >= n * (stride + 1),
                m == n - 1,
                stride >= 0,
        ;
        assert(n * (stride + 1) == m * (stride + 1) + stride + 1) by (nonlinear_arith)
            requires
                m == n - 1,
        ;
        assert(n * stride == m * stride + stride) by (nonlinear_arith)
            requires
                m == n - 1,
        ;
        lemma_defilter_rows_len(d, stride, bpp, m);
        assert((m + 1) * (stride + 1) == n * (stride + 1));
        let row = row_of(d, stride, m as int);
        assert(row.len() == stride + 1);
        assert(row.drop_first().len() == stride);
        assert(unsub(row.drop_first(), bpp).len() == stride);
        if defilter_rows(d, stride, bpp, n) is Some {
            let p = defilter_rows(d, stride, bpp, m)->Some_0;
            let q = defilter_row(row, bpp)->Some_0;
            assert(q.len() == stride);
            assert(defilter_rows(d, stride, bpp, n)->Some_0 == p + q);
            assert(p.len() == m * stride);
        }
    } else {
        assert(n * stride == 0) by (nonlinear_arith)
            requires
                n == 0,
        ;
    }
}

proof fn lemma_defilter_rows_none(d: Seq<u8>, stride: int, bpp: int, k: nat, n: nat)
    requires
        k <= n,
        defilter_rows(d, stride, bpp, k) is None,
    ensures
        defilter_rows(d, stride, bpp, n) is None,
    decreases n - k,
{
    if k < n {
        lemma_defilter_rows_none(d, stride, bpp, k, (n - 1) as nat);
    }
}

/// Splits `data` into `height` rows of a selector byte and `stride` data
/// bytes, reverses each row's filter (Sub looks back `bpp` bytes) and
/// concatenates the rows' data top to bottom. Fails with `UnsupportedFilter`
/// exactly when some row's selector is neither 0 nor 1.
pub fn unfilter(data: &[u8], height: usize, stride: usize, bpp: usize) -> (r: Result<
    Vec<u8>,
    DecodeError,
>)
    requires
        bpp > 0,
        data@.len() == height * (stride + 1),
    ensures
        match defilter_rows(data@, stride as int, bpp as int, height as nat) {
            Some(v) => r is Ok && r->Ok_0@ == v,
            None => r is Err && r->Err_0 == DecodeError::UnsupportedFilter,
        },
        r is Ok ==> r->Ok_0@.len() == height * stride,
{
    proof {
        lemma_defilter_rows_len(data@, stride as int, bpp as int, height as nat);
    }
    let mut out: Vec<u8> = Vec::new();
    let mut k: usize = 0;
    let mut base: usize = 0;
    while k < height
        invariant
            bpp > 0,
            k <= height,
            data@.len() == height * (stride + 1),
            base == k * (stride + 1),
            defilter_rows(data@, stride as int, bpp as int, k as nat) == Some(out@),
        decreases height - k,
    {
        assert(base + stride + 1 <= data@.len()) by (nonlinear_arith)
            requires
                base == k * (stride + 1),
                k < height,
                data@.len() == height * (stride + 1),
        ;
        assert(base + stride + 1 == (k + 1) * (stride + 1)) by (nonlinear_arith)
            requires
                base == k * (stride + 1),
        ;
        let selector = data[base];
        let row = copy_range(data, base + 1, base + 1 + stride);
        proof {
            assert(row@ =~= row_of(data@, stride as int, k as int).drop_first());
        }
        let mut decoded = if selector == 0 {
            row
        } else if selector == 1 {
            unsub_row(row.as_slice(), bpp)
        } else {
            proof {
                assert(row_of(data@, stride as int, k as int)[0] == selector);
                assert(defilter_rows(data@, stride as int, bpp as int, (k + 1) as nat) is None);
                lemma_defilter_rows_none(
                    data@,
                    stride as int,
                    bpp as int,
                    (k + 1) as nat,
                    height as nat,
                );
            }
            return Err(DecodeError::UnsupportedFilter);
        };
        proof {
            assert(row_of(data@, stride as int, k as int)[0] == selector);
        }
        out.append(&mut decoded);
        k = k + 1;
        base = base + stride + 1;
    }
    Ok(out)
}

} // verus!
