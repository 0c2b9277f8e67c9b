use vstd::prelude::*;

use crate::vec::copy_all;

verus! {

/// How many bands each worker gets per slice: enough to even out the load,
/// few enough to keep the overhead small.
pub const BANDS_PER_WORKER: usize = 4;

/// Relies on num_cpus::get: the number of logical cores available to this
/// process, which its documentation promises is at least one.
#[verifier::external_body]
fn available_cores() -> (r: usize)
    ensures
        r >= 1,
{
    num_cpus::get()
}

/// The number of workers: the one asked for, or else one per available core.
pub fn worker_count(requested: Option<usize>) -> (r: usize)
    ensures
        requested matches Some(n) ==> r == n,
        requested is None ==> r >= 1,
{
    match requested {
        Some(n) => n,
        None => available_cores(),
    }
}

/// A horizontal band of a slice: `rows` image rows starting at row `first_row`
/// (row 0 is the top of the image).
#[derive(Debug, Clone, Copy, PartialEq, Eq)]
pub struct Band {
    pub index: usize,
    pub first_row: usize,
    pub rows: usize,
}

/// `a / b` rounded up.
pub open spec fn ceil_div(a: int, b: int) -> int {
    (a + b - 1) / b
}

/// The rows per band for an image `height` rows tall and `workers` workers.
pub open spec fn band_height(height: int, workers: int) -> int {
    ceil_div(height, BANDS_PER_WORKER * workers)
}

/// `bands` cut `height` rows into consecutive nonempty runs from the top.
pub open spec fn is_band_layout(bands: Seq<Band>, height: nat) -> bool {
    &&& (height == 0 <==> bands.len() == 0)
    &&& bands.len() > 0 ==> bands[0].first_row == 0
    &&& forall|i: int| 0 <= i < bands.len() ==> {
        &&& (#[trigger] bands[i]).index == i
        &&& bands[i].rows >= 1
        &&& bands[i].first_row + bands[i].rows == if i + 1 < bands.len() { bands[i + 1].first_row as int } else { height as int }
    }
}

/// Cuts a slice of `height` rows into bands of `band_height(height, workers)`
/// rows from the top, the last band taking what is left.
pub fn band_layout(height: usize, workers: usize) -> (r: Vec<Band>)
    requires
        workers >= 1,
        BANDS_PER_WORKER * workers <= usize::MAX,
    ensures
        is_band_layout(r@, height as nat),
        height == 0 ==> r@.len() == 0,
        height > 0 ==> r@.len() == ceil_div(height as int, band_height(height as int, workers as int)),
        forall|i: int| 0 <= i < r@.len() ==> {
            &&& (#[trigger] r@[i]).index == i
            &&& r@[i].first_row == i * band_height(height as int, workers as int)
            &&& r@[i].rows >= 1
            &&& r@[i].rows <= band_height(height as int, workers as int)
            &&& r@[i].first_row + r@[i].rows == if i + 1 < r@.len() { r@[i + 1].first_row as int } else { height as int }
        },
{
    let mut out: Vec<Band> = Vec::new();
    if height == 0 {
        return out;
    }
    let tasks = BANDS_PER_WORKER * workers;
    let q = height / tasks;
    proof {
        assert(height % tasks != 0 ==> q + 1 <= height) by (nonlinear_arith)
            requires
                tasks >= 1,
                q == height / tasks,
        {
        }
    }
    let per = if height % tasks == 0 { q } else { q + 1 };
    proof {
        assert(per == band_height(height as int, workers as int)) by (nonlinear_arith)
            requires
                tasks >= 1,
                tasks == BANDS_PER_WORKER * workers,
                per == height / tasks + if height % tasks == 0 { 0int } else { 1int },
        {
        }
        assert(1 <= per <= height) by (nonlinear_arith)
            requires
                tasks >= 1,
                height >= 1,
                per == height / tasks + if height % tasks == 0 { 0int } else { 1int },
        {
        }
    }
    let cq = height / per;
    proof {
        assert(height % per != 0 ==> cq + 1 <= height) by (nonlinear_arith)
            requires
                per >= 1,
                cq == height / per,
        {
        }
    }
    let count = if height % per == 0 { cq } else { cq + 1 };
    proof {
        assert(count == ceil_div(height as int, per as int)) by (nonlinear_arith)
            requires
                per >= 1,
                count == height / per + if height % per == 0 { 0int } else { 1int },
        {
        }
        assert((count - 1) * per < height <= count * per) by (nonlinear_arith)
            requires
                per >= 1,
                count == height / per + if height % per == 0 { 0int } else { 1int },
        {
        }
    }
    let mut i: usize = 0;
    let mut first: usize = 0;
    while i < count
        invariant
            1 <= per <= height,
            count >= 1,
            (count - 1) * per < height <= count * per,
            per == band_height(height as int, workers as int),
            i <= count,
            first == if i < count { i * per } else { height as int },
            out@.len() == i,
            forall|a: int| 0 <= a < i ==> {
                &&& (#[trigger] out@[a]).index == a
                &&& out@[a].first_row == a * per
                &&& out@[a].rows >= 1
                &&& out@[a].rows <= per
                &&& out@[a].first_row + out@[a].rows == if a + 1 < count { (a + 1) * per } else { height as int }
            },
        decreases count - i,
    {
        proof {
            assert(i * per < height) by (nonlinear_arith)
                requires
                    i < count,
                    (count - 1) * per < height,
                    per >= 1,
            {
            }
        }
        let left = height - first;
        let rows = if left < per { left } else { per };
        proof {
            if i + 1 < count {
                assert((i + 1) * per <= (count - 1) * per) by (nonlinear_arith)
                    requires
                        i + 1 <= count - 1,
                        per >= 1,
                {
                }
                assert((i + 1) * per == i * per + per) by (nonlinear_arith);
            } else {
                assert(height <= (i + 1) * per);
                assert((i + 1) * per == i * per + per) by (nonlinear_arith);
            }
        }
        out.push(Band { index: i, first_row: first, rows });
        first = first + rows;
        i = i + 1;
    }
    out
}

/// A slice put together from its bands: the pixels of band 0, then band 1,
/// and so on, whatever order the bands came back in.
pub open spec fn assembled(count: nat, part: spec_fn(nat) -> Seq<u8>) -> Seq<u8> {
    Seq::new(count, |j: int| part(j as nat)).flatten()
}

/// The pixels of the band with index `j` in a batch of results.
pub open spec fn band_pixels(parts: Seq<(usize, Vec<u8>)>, j: nat) -> Seq<u8> {
    let a = choose|a: int| 0 <= a < parts.len() && parts[a].0 == j;
    parts[a].1@
}

/// Each band index below `count` comes back exactly once.
pub open spec fn one_per_band(parts: Seq<(usize, Vec<u8>)>, count: nat) -> bool {
    &&& parts.len() == count
    &&& forall|a: int| 0 <= a < parts.len() ==> (#[trigger] parts[a]).0 < count
    &&& forall|a: int, b: int| 0 <= a < b < parts.len() ==> (#[trigger] parts[a]).0 != (#[trigger] parts[b]).0
}

proof fn lemma_one_per_band_covers(parts: Seq<(usize, Vec<u8>)>, count: nat, j: nat)
    requires
        one_per_band(parts, count),
        j < count,
    ensures
        exists|a: int| 0 <= a < parts.len() && parts[a].0 == j,
{
    // The indices are distinct and below `count`, and there are `count` of them.
    let idx = parts.map_values(|e: (usize, Vec<u8>)| e.0 as int);
    let s = idx.to_set();
    assert(idx.no_duplicates()) by {
        assert forall|a: int, b: int| 0 <= a < idx.len() && 0 <= b < idx.len() && a != b implies idx[a] != idx[b] by {
            if a < b {
                assert(parts[a].0 != parts[b].0);
            } else {
                assert(parts[b].0 != parts[a].0);
            }
        }
    }
    idx.unique_seq_to_set();
    assert(s.subset_of(vstd::set_lib::set_int_range(0, count as int))) by {
        assert forall|x: int| s.contains(x) implies vstd::set_lib::set_int_range(0, count as int).contains(x) by {
            let a = choose|a: int| 0 <= a < idx.len() && idx[a] == x;
            assert(parts[a].0 < count);
        }
    }
    vstd::set_lib::lemma_int_range(0, count as int);
    if !s.contains(j as int) {
        vstd::set_lib::lemma_len_subset(s.insert(j as int), vstd::set_lib::set_int_range(0, count as int));
    }
    let a = choose|a: int| 0 <= a < idx.len() && idx[a] == j as int;
    assert(parts[a].0 == j);
}

/// Joins the bands of a slice in band order.
pub fn assemble(parts: Vec<(usize, Vec<u8>)>, count: usize) -> (r: Vec<u8>)
    requires
        one_per_band(parts@, count as nat),
    ensures
        r@ == assembled(count as nat, |j: nat| band_pixels(parts@, j)),
{
    let ghost orig = parts@;
    let mut slots: Vec<Option<Vec<u8>>> = Vec::new();
    let mut i: usize = 0;
    while i < count
        invariant
            parts@ == orig,
            one_per_band(orig, count as nat),
            i <= count,
            slots@.len() == i,
            forall|a: int| 0 <= a < i ==> (#[trigger] slots@[a]) is None,
        decreases count - i,
    {
        slots.push(None);
        i = i + 1;
    }
    let mut parts = parts;
    assert(orig.subrange(0, orig.len() as int) =~= orig);
    while parts.len() > 0
        invariant
            one_per_band(orig, count as nat),
            slots@.len() == count,
            parts@.len() <= orig.len(),
            parts@ == orig.subrange(0, parts@.len() as int),
            forall|j: int| 0 <= j < count ==> (#[trigger] slots@[j] matches Some(v) ==>
                exists|a: int| parts@.len() <= a < orig.len() && orig[a].0 == j && orig[a].1@ == v@),
            forall|a: int| parts@.len() <= a < orig.len() ==> (#[trigger] slots@[orig[a].0 as int]) is Some,
        decreases parts@.len(),
    {
        let ghost before = parts@;
        let (j, bytes) = parts.pop().unwrap();
        let ghost a = before.len() - 1;
        assert(parts@ == before.drop_last());
        assert(before[a] == orig[a]);
        assert(orig[a].0 == j);
        assert(j < count);
        slots.set(j, Some(bytes));
        proof {
            assert forall|b: int| parts@.len() <= b < orig.len() implies (#[trigger] slots@[orig[b].0 as int]) is Some by {
                if b != a {
                    assert(orig[b].0 != j) by {
                        if b < a {
                            assert(orig[b].0 != orig[a].0);
                        } else {
                            assert(orig[a].0 != orig[b].0);
                        }
                    }
                }
            }
        }
    }
    let mut out: Vec<u8> = Vec::new();
    let ghost whole = Seq::new(count as nat, |j: int| band_pixels(orig, j as nat));
    let mut k: usize = 0;
    while k < count
        invariant
            one_per_band(orig, count as nat),
            slots@.len() == count,
            forall|a: int| 0 <= a < orig.len() ==> (#[trigger] slots@[orig[a].0 as int]) is Some,
            forall|j: int| 0 <= j < count ==> (#[trigger] slots@[j] matches Some(v) ==>
                exists|a: int| 0 <= a < orig.len() && orig[a].0 == j && orig[a].1@ == v@),
            whole == Seq::new(count as nat, |j: int| band_pixels(orig, j as nat)),
            k <= count,
            out@ == whole.subrange(0, k as int).flatten_alt(),
        decreases count - k,
    {
        proof {
            lemma_one_per_band_covers(orig, count as nat, k as nat);
            let a = choose|a: int| 0 <= a < orig.len() && orig[a].0 == k;
            assert(slots@[orig[a].0 as int] is Some);
        }
        match &slots[k] {
            Some(v) => {
                proof {
                    let a = choose|a: int| 0 <= a < orig.len() && orig[a].0 == k && orig[a].1@ == v@;
                    let c = choose|c: int| 0 <= c < orig.len() && orig[c].0 == k as nat;
                    if a != c {
                        if a < c {
                            assert(orig[a].0 != orig[c].0);
                        } else {
                            assert(orig[c].0 != orig[a].0);
                        }
                    }
                    assert(band_pixels(orig, k as nat) == v@);
                }
                let mut piece = copy_all(v.as_slice());
                out.append(&mut piece);
            },
            None => {},
        }
        proof {
            let pre = whole.subrange(0, k + 1);
            assert(pre.drop_last() =~= whole.subrange(0, k as int));
        }
        k = k + 1;
    }
    proof {
        assert(whole.subrange(0, count as int) =~= whole);
        whole.lemma_flatten_and_flatten_alt_are_equivalent();
        assert(whole =~= Seq::new(count as nat, |j: int| (|j: nat| band_pixels(orig, j))(j as nat)));
    }
    out
}


/// A slice comes out the same whatever order its bands finish in: two
/// batches that hold the same pixels for each band index assemble alike.
pub proof fn lemma_assembly_ignores_arrival_order(a: Seq<(usize, Vec<u8>)>, b: Seq<(usize, Vec<u8>)>, count: nat)
    requires
        one_per_band(a, count),
        one_per_band(b, count),
        forall|x: int, y: int| 0 <= x < a.len() && 0 <= y < b.len() && (#[trigger] a[x]).0 == (#[trigger] b[y]).0 ==> a[x].1@ == b[y].1@,
    ensures
        assembled(count, |j: nat| band_pixels(a, j)) == assembled(count, |j: nat| band_pixels(b, j)),
{
    let sa = Seq::new(count, |j: int| band_pixels(a, j as nat));
    let sb = Seq::new(count, |j: int| band_pixels(b, j as nat));
    assert(sa =~= Seq::new(count, |j: int| (|j: nat| band_pixels(a, j))(j as nat)));
    assert(sb =~= Seq::new(count, |j: int| (|j: nat| band_pixels(b, j))(j as nat)));
    assert(sa =~= sb) by {
        assert forall|j: int| 0 <= j < count implies #[trigger] band_pixels(a, j as nat) == band_pixels(b, j as nat) by {
            lemma_one_per_band_covers(a, count, j as nat);
            lemma_one_per_band_covers(b, count, j as nat);
            let x = choose|x: int| 0 <= x < a.len() && a[x].0 == j as nat;
            let y = choose|y: int| 0 <= y < b.len() && b[y].0 == j as nat;
            assert(a[x].1@ == b[y].1@);
        }
    }
}

/// The pixels of `count` rows from row `first` on, row by row, where
/// `row(g)` gives the pixels of row `g`.
pub open spec fn rows_pixels(row: spec_fn(nat) -> Seq<u8>, first: nat, count: nat) -> Seq<u8> {
    Seq::new(count, |k: int| row((first + k) as nat)).flatten()
}

proof fn lemma_rows_split(row: spec_fn(nat) -> Seq<u8>, a: nat, b: nat)
    ensures
        rows_pixels(row, 0, a + b) == rows_pixels(row, 0, a) + rows_pixels(row, a, b),
{
    let x = Seq::new(a, |k: int| row((0 + k) as nat));
    let y = Seq::new(b, |k: int| row((a + k) as nat));
    assert(Seq::new(a + b, |k: int| row((0 + k) as nat)) =~= x + y);
    vstd::seq_lib::lemma_flatten_concat(x, y);
}

/// The pixels of band `i`, taken from its rows.
pub open spec fn band_rows(bands: Seq<Band>, row: spec_fn(nat) -> Seq<u8>, i: int) -> Seq<u8> {
    rows_pixels(row, bands[i].first_row as nat, bands[i].rows as nat)
}

proof fn lemma_band_prefix(bands: Seq<Band>, height: nat, row: spec_fn(nat) -> Seq<u8>, j: int)
    requires
        is_band_layout(bands, height),
        0 <= j <= bands.len(),
    ensures
        Seq::new(j as nat, |i: int| band_rows(bands, row, i)).flatten()
            == rows_pixels(row, 0, if j < bands.len() { bands[j].first_row as nat } else { height }),
    decreases j,
{
    let bp = |i: int| band_rows(bands, row, i);
    if j == 0 {
        assert(Seq::new(0, bp) =~= Seq::<Seq<u8>>::empty());
        assert(rows_pixels(row, 0, 0) =~= Seq::<u8>::empty()) by {
            assert(Seq::new(0, |k: int| row((0 + k) as nat)) =~= Seq::<Seq<u8>>::empty());
        }
        if bands.len() == 0 {
            assert(height == 0);
        }
    } else {
        lemma_band_prefix(bands, height, row, j - 1);
        let k = j - 1;
        assert(bands[k].index == k);
        let x = Seq::new(k as nat, bp);
        assert(Seq::new(j as nat, bp) =~= x + seq![bp(k)]);
        vstd::seq_lib::lemma_flatten_concat(x, seq![bp(k)]);
        seq![bp(k)].lemma_flatten_one_element();
        lemma_rows_split(row, bands[k].first_row as nat, bands[k].rows as nat);
    }
}

/// Where each band holds the pixels of its own rows, the bands of any
/// layout, put together in band order, give the rows of the whole slice in
/// order: how many workers cut the slice changes nothing in the image.
pub proof fn lemma_layout_does_not_change_the_image(bands: Seq<Band>, height: nat, row: spec_fn(nat) -> Seq<u8>)
    requires
        is_band_layout(bands, height),
    ensures
        Seq::new(bands.len(), |i: int| band_rows(bands, row, i)).flatten() == rows_pixels(row, 0, height),
{
    lemma_band_prefix(bands, height, row, bands.len() as int);
}

/// Splits a duration in milliseconds into hours, minutes, seconds and
/// milliseconds.
pub fn split_millis(total: u128) -> (r: (u128, u128, u128, u128))
    ensures
        r.1 < 60,
        r.2 < 60,
        r.3 < 1000,
        total == ((r.0 * 60 + r.1) * 60 + r.2) * 1000 + r.3,
{
    let ms = total % 1000;
    let sec = total / 1000;
    let min = sec / 60;
    let s = sec % 60;
    let hr = min / 60;
    let m = min % 60;
    proof {
        assert(total == sec * 1000 + ms);
        assert(sec == min * 60 + s);
        assert(min == hr * 60 + m);
        assert(total == ((hr * 60 + m) * 60 + s) * 1000 + ms) by (nonlinear_arith)
            requires
                total == sec * 1000 + ms,
                sec == min * 60 + s,
                min == hr * 60 + m,
        {
        }
    }
    (hr, m, s, ms)
}

} // verus!
