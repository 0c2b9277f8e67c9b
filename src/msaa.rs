use vstd::prelude::*;

use crate::vec::Vec3;

verus! {

/// The supersampling levels: the number of samples taken in each voxel.
#[derive(Debug, Clone, Copy, PartialEq, Eq, Hash)]
pub enum Msaa {
    Disable,
    Oct,
    TwentySeven,
    SixtyFour,
}

/// The number of samples along each axis.
pub open spec fn side_spec(m: Msaa) -> nat {
    match m {
        Msaa::Disable => 1,
        Msaa::Oct => 2,
        Msaa::TwentySeven => 3,
        Msaa::SixtyFour => 4,
    }
}

/// The sample offset numerators of sample `i` on a grid of `k` samples per
/// axis; each is divided by `k + 1`, so the samples are evenly spaced inside
/// the voxel.
pub open spec fn offset_spec(k: nat, i: nat) -> Vec3<u64> {
    Vec3 {
        x: ((i / (k * k)) % k + 1) as u64,
        y: ((i / k) % k + 1) as u64,
        z: (i % k + 1) as u64,
    }
}

impl Msaa {
    /// Selects the level from its sample count.
    pub fn try_from(value: i32) -> (r: Result<Msaa, &'static str>)
        ensures
            value == 1 <==> r == Ok::<Msaa, &'static str>(Msaa::Disable),
            value == 8 <==> r == Ok::<Msaa, &'static str>(Msaa::Oct),
            value == 27 <==> r == Ok::<Msaa, &'static str>(Msaa::TwentySeven),
            value == 64 <==> r == Ok::<Msaa, &'static str>(Msaa::SixtyFour),
            r is Err <==> !(value == 1 || value == 8 || value == 27 || value == 64),
            r matches Ok(m) ==> value == side_spec(m) * side_spec(m) * side_spec(m),
    {
        match value {
            1 => Ok(Msaa::Disable),
            8 => Ok(Msaa::Oct),
            27 => Ok(Msaa::TwentySeven),
            64 => Ok(Msaa::SixtyFour),
            _ => Err("msaa only supports 1/8/27/64"),
        }
    }

    pub fn side(self) -> (r: u64)
        ensures
            r == side_spec(self),
    {
        match self {
            Msaa::Disable => 1,
            Msaa::Oct => 2,
            Msaa::TwentySeven => 3,
            Msaa::SixtyFour => 4,
        }
    }

    pub fn sample_count(self) -> (r: usize)
        ensures
            r == side_spec(self) * side_spec(self) * side_spec(self),
    {
        match self {
            Msaa::Disable => 1,
            Msaa::Oct => 8,
            Msaa::TwentySeven => 27,
            Msaa::SixtyFour => 64,
        }
    }

    /// The common denominator of every offset that `offsets` returns.
    pub fn denominator(self) -> (r: u64)
        ensures
            r == side_spec(self) + 1,
    {
        self.side() + 1
    }

    /// The sub-voxel sample positions, as numerators over `denominator()`.
    pub fn offsets(self) -> (r: Vec<Vec3<u64>>)
        ensures
            r.len() == side_spec(self) * side_spec(self) * side_spec(self),
            forall|i: int| 0 <= i < r.len() ==> #[trigger] r[i] == offset_spec(side_spec(self), i as nat),
    {
        let k = self.side();
        let n = self.sample_count();
        let mut out: Vec<Vec3<u64>> = Vec::new();
        let mut i: usize = 0;
        while i < n
            invariant
                k == side_spec(self),
                1 <= k <= 4,
                n == k * k * k,
                i <= n,
                out.len() == i,
                forall|j: int| 0 <= j < i ==> #[trigger] out[j] == offset_spec(k as nat, j as nat),
            decreases n - i,
        {
            let ii = i as u64;
            proof {
                assert(k * k <= 16) by (nonlinear_arith) requires 1 <= k <= 4;
                assert(k * k >= 1) by (nonlinear_arith) requires 1 <= k <= 4;
            }
            let x = (ii / (k * k)) % k + 1;
            let y = (ii / k) % k + 1;
            let z = ii % k + 1;
            out.push(Vec3::new(x, y, z));
            i = i + 1;
        }
        out
    }
}

} // verus!
