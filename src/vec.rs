use vstd::prelude::*;

verus! {

/// A triple of coordinates.
#[derive(Debug, Clone, Copy, PartialEq, Eq)]
pub struct Vec3<T> {
    pub x: T,
    pub y: T,
    pub z: T,
}

impl<T> Vec3<T> {
    pub fn new(x: T, y: T, z: T) -> (r: Vec3<T>)
        ensures
            r.x == x,
            r.y == y,
            r.z == z,
    {
        Vec3 { x, y, z }
    }

    pub fn tuple(self) -> (r: (T, T, T))
        ensures
            r == (self.x, self.y, self.z),
    {
        (self.x, self.y, self.z)
    }
}

/// The dot product of two integer triples, as a mathematical integer.
pub open spec fn dot_spec(a: Vec3<i64>, b: Vec3<i64>) -> int {
    a.x * b.x + a.y * b.y + a.z * b.z
}

/// Whether a mathematical integer fits in an `i64`.
pub open spec fn fits_i64(v: int) -> bool {
    i64::MIN <= v <= i64::MAX
}

impl Vec3<i64> {
    pub fn dot(self, b: Vec3<i64>) -> (r: i64)
        requires
            fits_i64(dot_spec(self, b)),
        ensures
            r == dot_spec(self, b),
    {
        dot(self, b)
    }

    pub fn dot2(self) -> (r: i64)
        requires
            fits_i64(dot_spec(self, self)),
        ensures
            r == dot_spec(self, self),
            r >= 0,
    {
        proof {
            assert(self.x * self.x >= 0) by (nonlinear_arith);
            assert(self.y * self.y >= 0) by (nonlinear_arith);
            assert(self.z * self.z >= 0) by (nonlinear_arith);
        }
        dot(self, self)
    }
}

proof fn lemma_product_bound(a: i64, b: i64)
    ensures
        -0x4000_0000_0000_0000_0000_0000_0000_0000 <= a as int * b as int <= 0x4000_0000_0000_0000_0000_0000_0000_0000,
{
    let ai = a as int;
    let bi = b as int;
    assert(-0x4000_0000_0000_0000_0000_0000_0000_0000 <= ai * bi <= 0x4000_0000_0000_0000_0000_0000_0000_0000) by (nonlinear_arith)
        requires
            -0x8000_0000_0000_0000 <= ai <= 0x8000_0000_0000_0000,
            -0x8000_0000_0000_0000 <= bi <= 0x8000_0000_0000_0000,
    ;
}

pub fn dot(a: Vec3<i64>, b: Vec3<i64>) -> (r: i64)
    requires
        fits_i64(dot_spec(a, b)),
    ensures
        r == dot_spec(a, b),
{
    proof {
        lemma_product_bound(a.x, b.x);
        lemma_product_bound(a.y, b.y);
        lemma_product_bound(a.z, b.z);
    }
    let xx = (a.x as i128) * (b.x as i128);
    let yy = (a.y as i128) * (b.y as i128);
    let zz = (a.z as i128) * (b.z as i128);
    let s = xx + yy;
    let t = s as i128 + zz;
    t as i64
}

/// The componentwise larger of two triples.
pub open spec fn max_spec(a: Vec3<i64>, b: Vec3<i64>) -> Vec3<i64> {
    Vec3 {
        x: if a.x > b.x { a.x } else { b.x },
        y: if a.y > b.y { a.y } else { b.y },
        z: if a.z > b.z { a.z } else { b.z },
    }
}

/// The componentwise smaller of two triples.
pub open spec fn min_spec(a: Vec3<i64>, b: Vec3<i64>) -> Vec3<i64> {
    Vec3 {
        x: if a.x < b.x { a.x } else { b.x },
        y: if a.y < b.y { a.y } else { b.y },
        z: if a.z < b.z { a.z } else { b.z },
    }
}

pub fn maximum(a: Vec3<i64>, b: Vec3<i64>) -> (r: Vec3<i64>)
    ensures
        r == max_spec(a, b),
{
    let (xa, ya, za) = a.tuple();
    let (xb, yb, zb) = b.tuple();
    let x = if xa > xb { xa } else { xb };
    let y = if ya > yb { ya } else { yb };
    let z = if za > zb { za } else { zb };
    Vec3::new(x, y, z)
}

pub fn minimum(a: Vec3<i64>, b: Vec3<i64>) -> (r: Vec3<i64>)
    ensures
        r == min_spec(a, b),
{
    let (xa, ya, za) = a.tuple();
    let (xb, yb, zb) = b.tuple();
    let x = if xa < xb { xa } else { xb };
    let y = if ya < yb { ya } else { yb };
    let z = if za < zb { za } else { zb };
    Vec3::new(x, y, z)
}

} // verus!

verus! {

/// The ordering key of a single-precision number given by its bit pattern:
/// the magnitude bits, negated when the sign bit is set. For numbers that are
/// not NaN, comparing keys orders them as the numbers themselves are ordered,
/// and both zeros share the key 0.
pub open spec fn coordinate_key_spec(bits: u32) -> int {
    if bits >= 0x8000_0000 {
        -(bits - 0x8000_0000)
    } else {
        bits as int
    }
}

pub fn coordinate_key(bits: u32) -> (r: i64)
    ensures
        r == coordinate_key_spec(bits),
        -0x7fff_ffff <= r <= 0x7fff_ffff,
{
    if bits >= 0x8000_0000 {
        -((bits - 0x8000_0000) as i64)
    } else {
        bits as i64
    }
}

/// A fresh vector holding the first `len` elements of `v`.
pub fn copy_prefix<T: Copy>(v: &[T], len: usize) -> (r: Vec<T>)
    requires
        len <= v@.len(),
    ensures
        r@ == v@.subrange(0, len as int),
{
    let mut out: Vec<T> = Vec::new();
    let mut i: usize = 0;
    while i < len
        invariant
            len <= v@.len(),
            i <= len,
            out@ == v@.subrange(0, i as int),
        decreases len - i,
    {
        out.push(v[i]);
        i = i + 1;
        assert(out@ =~= v@.subrange(0, i as int));
    }
    out
}

/// A fresh vector holding the elements of `v`.
pub fn copy_all<T: Copy>(v: &[T]) -> (r: Vec<T>)
    ensures
        r@ == v@,
{
    let r = copy_prefix(v, v.len());
    assert(v@.subrange(0, v@.len() as int) =~= v@);
    r
}

} // verus!
