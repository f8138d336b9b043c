//! A 2D proximity index ("spatial hash").
//!
//! Continuous (x, y) positions are mapped into discrete grid cells under one
//! of three interchangeable tilings (square, hexagonal, triangular), cells are
//! bucketed into a fixed number of hash slots, and "what is stored near this
//! point" queries inspect a cell together with its ring of geometric
//! neighbors.  Continuous positions are carried as fixed-point numbers so that
//! every coordinate transform is exact integer arithmetic.
//!
//! Distinct cells can collide into one bucket, so each bucket holds an
//! exact-match association from canonical cell key to the list of values
//! stored there; every lookup re-checks the key and never trusts the bucket
//! index alone.

pub mod coordinates;
pub mod fixed;
pub mod hash;
pub mod lines;

use crate::coordinates::{
    hex_cell_spec, hex_ring_spec, square_cell_spec, square_ring_spec, tri_canon_spec,
    tri_cell_spec, tri_ring_spec, Euclidean, HexAxial, Key, TriCoord, CELL_MAX,
};
use crate::fixed::Fixed;
use crate::hash::{bucket_of, bucket_of_spec, HashStrategy, NUM_BUCKETS};
use vstd::prelude::*;

verus! {

/// Bound on the components of any canonical key produced from a continuous
/// point (the triangular key doubles a cell component).
pub const KEY_MAX: i64 = 0x40_0000_0000;

/// The tiling a container uses, together with its scale parameter.
#[derive(Clone, Copy, PartialEq, Eq, Structural, Debug)]
pub enum CoordinateKind {
    /// Axis-aligned squares of the given side length.
    Cube { side_len: Fixed },
    /// Hexagons of the given circumradius.
    Hex { circumradius: Fixed },
    /// Equilateral triangles of the given side length.
    Tri { side_len: Fixed },
}

impl CoordinateKind {
    /// The scale parameter is strictly positive.
    pub open spec fn wf(self) -> bool {
        match self {
            CoordinateKind::Cube { side_len } => side_len.raw >= 1,
            CoordinateKind::Hex { circumradius } => circumradius.raw >= 1,
            CoordinateKind::Tri { side_len } => side_len.raw >= 1,
        }
    }
}

/// The canonical key of the cell containing the continuous point `(x, y)`
/// under the given tiling, as a pair of mathematical integers.
pub open spec fn key_of_spec(kind: CoordinateKind, x: Fixed, y: Fixed) -> (int, int) {
    match kind {
        CoordinateKind::Cube { side_len } => square_cell_spec(
            x.raw as int,
            y.raw as int,
            side_len.raw as int,
        ),
        CoordinateKind::Hex { circumradius } => hex_cell_spec(
            x.raw as int,
            y.raw as int,
            circumradius.raw as int,
        ),
        CoordinateKind::Tri { side_len } => {
            let c = tri_cell_spec(x.raw as int, y.raw as int, side_len.raw as int);
            tri_canon_spec(c.0, c.1, c.2)
        },
    }
}

/// One exact-match entry of a bucket: a canonical cell key and the values
/// stored at that cell, in insertion order.
pub struct Entry<T> {
    /// The canonical key of the cell.
    pub key: Key,
    /// The values stored at the cell.
    pub vals: Vec<T>,
}

/// Whether an entry is for the probed key.
pub open spec fn entry_matches<T>(e: Entry<T>, kx: int, ky: int) -> bool {
    e.key.x == kx && e.key.y == ky
}

/// The values an association list stores under a key (first match; empty
/// when absent).
pub open spec fn assoc_get<T>(s: Seq<Entry<T>>, kx: int, ky: int) -> Seq<T>
    decreases s.len(),
{
    if s.len() == 0 {
        Seq::empty()
    } else if entry_matches(s[0], kx, ky) {
        s[0].vals@
    } else {
        assoc_get(s.subrange(1, s.len() as int), kx, ky)
    }
}

/// Whether an association list holds an entry for a key.
pub open spec fn assoc_has<T>(s: Seq<Entry<T>>, kx: int, ky: int) -> bool
    decreases s.len(),
{
    if s.len() == 0 {
        false
    } else if entry_matches(s[0], kx, ky) {
        true
    } else {
        assoc_has(s.subrange(1, s.len() as int), kx, ky)
    }
}

proof fn lemma_assoc_found<T>(s: Seq<Entry<T>>, kx: int, ky: int, i: int)
    requires
        0 <= i < s.len(),
        entry_matches(s[i], kx, ky),
        forall|j: int| 0 <= j < i ==> !entry_matches(#[trigger] s[j], kx, ky),
    ensures
        assoc_get(s, kx, ky) == s[i].vals@,
        assoc_has(s, kx, ky),
    decreases i,
{
    if i > 0 {
        lemma_assoc_found(s.subrange(1, s.len() as int), kx, ky, i - 1);
    }
}

proof fn lemma_assoc_absent<T>(s: Seq<Entry<T>>, kx: int, ky: int)
    requires
        forall|j: int| 0 <= j < s.len() ==> !entry_matches(#[trigger] s[j], kx, ky),
    ensures
        assoc_get(s, kx, ky) == Seq::<T>::empty(),
        !assoc_has(s, kx, ky),
    decreases s.len(),
{
    if s.len() > 0 {
        lemma_assoc_absent(s.subrange(1, s.len() as int), kx, ky);
    }
}

proof fn lemma_assoc_update<T>(s: Seq<Entry<T>>, i: int, e: Entry<T>, kx: int, ky: int)
    requires
        0 <= i < s.len(),
        e.key == s[i].key,
        forall|j: int| 0 <= j < i ==> (#[trigger] s[j]).key != s[i].key,
    ensures
        entry_matches(s[i], kx, ky) ==> assoc_get(s.update(i, e), kx, ky) == e.vals@,
        !entry_matches(s[i], kx, ky) ==> assoc_get(s.update(i, e), kx, ky) == assoc_get(
            s,
            kx,
            ky,
        ),
        assoc_has(s.update(i, e), kx, ky) == assoc_has(s, kx, ky),
    decreases i,
{
    let su = s.update(i, e);
    if i == 0 {
        if !entry_matches(s[0], kx, ky) {
            assert(su.subrange(1, su.len() as int) =~= s.subrange(1, s.len() as int));
        }
    } else {
        assert(su.subrange(1, su.len() as int) =~= s.subrange(1, s.len() as int).update(
            i - 1,
            e,
        ));
        lemma_assoc_update(s.subrange(1, s.len() as int), i - 1, e, kx, ky);
    }
}

proof fn lemma_assoc_has_index<T>(s: Seq<Entry<T>>, kx: int, ky: int)
    requires
        assoc_has(s, kx, ky),
    ensures
        exists|i: int| 0 <= i < s.len() && entry_matches(#[trigger] s[i], kx, ky),
    decreases s.len(),
{
    if s.len() > 0 && !entry_matches(s[0], kx, ky) {
        lemma_assoc_has_index(s.subrange(1, s.len() as int), kx, ky);
        let i = choose|i: int|
            0 <= i < s.len() - 1 && entry_matches(
                #[trigger] s.subrange(1, s.len() as int)[i],
                kx,
                ky,
            );
        assert(entry_matches(s[i + 1], kx, ky));
    }
}

proof fn lemma_assoc_push<T>(s: Seq<Entry<T>>, e: Entry<T>, kx: int, ky: int)
    ensures
        entry_matches(e, kx, ky) && !assoc_has(s, kx, ky) ==> assoc_get(s.push(e), kx, ky)
            == e.vals@,
        !entry_matches(e, kx, ky) ==> assoc_get(s.push(e), kx, ky) == assoc_get(s, kx, ky),
        !entry_matches(e, kx, ky) ==> assoc_has(s.push(e), kx, ky) == assoc_has(s, kx, ky),
        entry_matches(e, kx, ky) ==> assoc_has(s.push(e), kx, ky),
    decreases s.len(),
{
    if s.len() == 0 {
        let t = s.push(e).subrange(1, 1);
        assert(t =~= Seq::<Entry<T>>::empty());
        assert(assoc_get(t, kx, ky) == Seq::<T>::empty());
        assert(!assoc_has(t, kx, ky));
        assert(s.push(e)[0] == e);
    } else {
        assert(s.push(e).subrange(1, s.len() as int + 1) =~= s.subrange(1, s.len() as int).push(
            e,
        ));
        lemma_assoc_push(s.subrange(1, s.len() as int), e, kx, ky);
    }
}

/// A spatial hash: values indexed by the cell of a tiling their continuous
/// position falls in, bucketed by a hash of the canonical cell key with an
/// exact-match check inside the bucket.
pub struct SpatialHash<T> {
    /// The buckets: each an exact-match association list from canonical
    /// cell key to stored values.
    pub data: Vec<Vec<Entry<T>>>,
    /// The hash strategy mapping canonical keys to buckets.
    pub strategy: HashStrategy,
    /// The tiling and scale this container was created with.
    pub kind: CoordinateKind,
}

impl<T> SpatialHash<T> {
    /// One bucket is coherent: every entry hashes to this bucket, keys are
    /// distinct, and no entry is empty.
    pub open spec fn bucket_wf(self, b: int) -> bool {
        let bk = self.data@[b]@;
        &&& forall|i: int|
            0 <= i < bk.len() ==> bucket_of_spec(
                self.strategy,
                (#[trigger] bk[i]).key.x as int,
                (#[trigger] bk[i]).key.y as int,
            ) == b
        &&& forall|i: int, j: int| 0 <= i < j < bk.len() ==> bk[i].key != bk[j].key
        &&& forall|i: int| 0 <= i < bk.len() ==> (#[trigger] bk[i]).vals@.len() > 0
    }

    /// The container invariant: the bucket array has its fixed size, the
    /// scale is positive, and every bucket is coherent.
    pub open spec fn wf(self) -> bool {
        &&& self.data@.len() == NUM_BUCKETS
        &&& self.kind.wf()
        &&& forall|b: int| 0 <= b < NUM_BUCKETS ==> self.bucket_wf(b)
    }

    /// The values stored at the cell with canonical key `(kx, ky)`, in
    /// insertion order; empty when the cell has no entry.
    pub open spec fn cell(self, kx: int, ky: int) -> Seq<T> {
        assoc_get(self.data@[bucket_of_spec(self.strategy, kx, ky)]@, kx, ky)
    }

    /// Whether the cell with canonical key `(kx, ky)` has an entry.
    pub open spec fn has_cell(self, kx: int, ky: int) -> bool {
        assoc_has(self.data@[bucket_of_spec(self.strategy, kx, ky)]@, kx, ky)
    }

    /// Whether no cell holds anything.
    pub open spec fn is_empty_spec(self) -> bool {
        forall|b: int| 0 <= b < NUM_BUCKETS ==> (#[trigger] self.data@[b])@.len() == 0
    }
}

/// A copy of a list of values.
fn copy_vals<T: Copy>(v: &Vec<T>) -> (r: Vec<T>)
    ensures
        r@ == v@,
{
    let mut r: Vec<T> = Vec::new();
    let mut i: usize = 0;
    while i < v.len()
        invariant
            i <= v@.len(),
            r@ == v@.subrange(0, i as int),
        decreases v@.len() - i,
    {
        r.push(v[i]);
        proof {
            assert(r@ =~= v@.subrange(0, i as int + 1));
        }
        i = i + 1;
    }
    proof {
        assert(v@.subrange(0, v@.len() as int) =~= v@);
    }
    r
}

/// The fixed-size array of empty buckets.
fn empty_buckets<T>() -> (d: Vec<Vec<Entry<T>>>)
    ensures
        d@.len() == NUM_BUCKETS,
        forall|b: int| 0 <= b < NUM_BUCKETS ==> (#[trigger] d@[b])@.len() == 0,
{
    let mut d: Vec<Vec<Entry<T>>> = Vec::new();
    let mut i: usize = 0;
    while i < NUM_BUCKETS
        invariant
            i <= NUM_BUCKETS,
            d@.len() == i,
            forall|b: int| 0 <= b < i ==> (#[trigger] d@[b])@.len() == 0,
        decreases NUM_BUCKETS - i,
    {
        d.push(Vec::new());
        i = i + 1;
    }
    d
}

impl<T> SpatialHash<T> {
    /// An empty container for the given tiling, using the default keyed
    /// hash strategy.
    pub fn new(kind: CoordinateKind) -> (sh: SpatialHash<T>)
        requires
            kind.wf(),
        ensures
            sh.wf(),
            sh.kind == kind,
            sh.strategy == (HashStrategy::Keyed {
                k0: crate::hash::DEFAULT_K0,
                k1: crate::hash::DEFAULT_K1,
            }),
            sh.is_empty_spec(),
            forall|kx: int, ky: int| #[trigger] sh.cell(kx, ky) == Seq::<T>::empty(),
            forall|kx: int, ky: int| !#[trigger] sh.has_cell(kx, ky),
    {
        let sh = SpatialHash {
            data: empty_buckets(),
            strategy: HashStrategy::default_keyed(),
            kind,
        };
        proof {
            assert forall|kx: int, ky: int|
                #[trigger] sh.cell(kx, ky) == Seq::<T>::empty() && !#[trigger] sh.has_cell(
                    kx,
                    ky,
                ) by {
                crate::hash::lemma_bucket_in_range(sh.strategy, kx, ky);
                lemma_assoc_absent(sh.data@[bucket_of_spec(sh.strategy, kx, ky)]@, kx, ky);
            }
        }
        sh
    }

    /// An empty container over square cells of the given side length.
    pub fn cube(side_len: Fixed) -> (sh: SpatialHash<T>)
        requires
            side_len.raw >= 1,
        ensures
            sh.wf(),
            sh.kind == (CoordinateKind::Cube { side_len }),
            sh.is_empty_spec(),
            forall|kx: int, ky: int| #[trigger] sh.cell(kx, ky) == Seq::<T>::empty(),
            forall|kx: int, ky: int| !#[trigger] sh.has_cell(kx, ky),
    {
        Self::new(CoordinateKind::Cube { side_len })
    }

    /// An empty container over hexagonal cells of the given circumradius.
    pub fn hex(circumradius: Fixed) -> (sh: SpatialHash<T>)
        requires
            circumradius.raw >= 1,
        ensures
            sh.wf(),
            sh.kind == (CoordinateKind::Hex { circumradius }),
            sh.is_empty_spec(),
            forall|kx: int, ky: int| #[trigger] sh.cell(kx, ky) == Seq::<T>::empty(),
            forall|kx: int, ky: int| !#[trigger] sh.has_cell(kx, ky),
    {
        Self::new(CoordinateKind::Hex { circumradius })
    }

    /// An empty container over triangular cells whose height is the given
    /// value: the natural query radius of a triangular grid is its height,
    /// converted internally to the side length `height * 2 / sqrt(3)`.
    pub fn tri_h(height: Fixed) -> (sh: SpatialHash<T>)
        requires
            1 <= height.raw <= 1_500_000_000,
        ensures
            sh.wf(),
            sh.kind == (CoordinateKind::Tri {
                side_len: Fixed {
                    raw: crate::fixed::floor_div_spec(
                        height.raw * crate::coordinates::K_TWO_SQRT3_THIRD,
                        crate::fixed::FX_ONE as int,
                    ) as i32,
                },
            }),
            sh.is_empty_spec(),
            forall|kx: int, ky: int| #[trigger] sh.cell(kx, ky) == Seq::<T>::empty(),
            forall|kx: int, ky: int| !#[trigger] sh.has_cell(kx, ky),
    {
        let side_len = TriCoord::height_to_side_len(height);
        Self::new(CoordinateKind::Tri { side_len })
    }

    /// The same container with a different hash strategy; only an empty
    /// container can be re-keyed, since existing entries were placed by
    /// the old strategy.
    pub fn with_hasher(self, strategy: HashStrategy) -> (sh: SpatialHash<T>)
        requires
            self.wf(),
            self.is_empty_spec(),
        ensures
            sh.wf(),
            sh.kind == self.kind,
            sh.strategy == strategy,
            sh.is_empty_spec(),
            forall|kx: int, ky: int| #[trigger] sh.cell(kx, ky) == Seq::<T>::empty(),
            forall|kx: int, ky: int| !#[trigger] sh.has_cell(kx, ky),
    {
        let sh = SpatialHash { data: self.data, strategy, kind: self.kind };
        proof {
            assert forall|kx: int, ky: int|
                #[trigger] sh.cell(kx, ky) == Seq::<T>::empty() && !#[trigger] sh.has_cell(
                    kx,
                    ky,
                ) by {
                crate::hash::lemma_bucket_in_range(sh.strategy, kx, ky);
                lemma_assoc_absent(sh.data@[bucket_of_spec(sh.strategy, kx, ky)]@, kx, ky);
            }
        }
        sh
    }

    /// Empty every bucket; tiling, scale and bucket count are unchanged.
    pub fn clear(&mut self)
        requires
            old(self).wf(),
        ensures
            final(self).wf(),
            final(self).kind == old(self).kind,
            final(self).strategy == old(self).strategy,
            final(self).is_empty_spec(),
            forall|kx: int, ky: int| #[trigger] final(self).cell(kx, ky) == Seq::<T>::empty(),
            forall|kx: int, ky: int| !#[trigger] final(self).has_cell(kx, ky),
    {
        self.data = empty_buckets();
        proof {
            let sh = *self;
            assert forall|kx: int, ky: int|
                #[trigger] sh.cell(kx, ky) == Seq::<T>::empty() && !#[trigger] sh.has_cell(
                    kx,
                    ky,
                ) by {
                crate::hash::lemma_bucket_in_range(sh.strategy, kx, ky);
                lemma_assoc_absent(sh.data@[bucket_of_spec(sh.strategy, kx, ky)]@, kx, ky);
            }
        }
    }
}

/// Every cell other than `(kx, ky)` reads the same in `post` as in `pre`.
pub open spec fn frame_except<T>(pre: SpatialHash<T>, post: SpatialHash<T>, kx: int, ky: int) -> bool {
    forall|ax: int, ay: int|
        !(ax == kx && ay == ky) ==> #[trigger] post.cell(ax, ay) == pre.cell(ax, ay)
            && post.has_cell(ax, ay) == pre.has_cell(ax, ay)
}

/// How one ring insertion changes a container: every cell whose key is in
/// `ks` gained `t` at the end of its list, every other cell is untouched.
pub open spec fn ring_add_rel<T>(
    pre: SpatialHash<T>,
    post: SpatialHash<T>,
    ks: Seq<(int, int)>,
    t: T,
) -> bool {
    &&& forall|ax: int, ay: int|
        ks.contains((ax, ay)) ==> #[trigger] post.cell(ax, ay) == pre.cell(ax, ay).push(t)
            && post.has_cell(ax, ay)
    &&& forall|ax: int, ay: int|
        !ks.contains((ax, ay)) ==> #[trigger] post.cell(ax, ay) == pre.cell(ax, ay)
            && post.has_cell(ax, ay) == pre.has_cell(ax, ay)
}

/// How many times a key occurs along a rasterized path.
pub open spec fn count_key(path: Seq<(int, int)>, ax: int, ay: int) -> nat
    decreases path.len(),
{
    if path.len() == 0 {
        0
    } else {
        count_key(path.drop_last(), ax, ay) + (if path.last() == (ax, ay) {
            1nat
        } else {
            0nat
        })
    }
}

/// The cells a line insertion touches: the walk over the canonical keys of
/// the two endpoint cells.
pub open spec fn line_path_spec(
    kind: CoordinateKind,
    l_start: (Fixed, Fixed),
    l_end: (Fixed, Fixed),
) -> Seq<(int, int)> {
    let k0 = key_of_spec(kind, l_start.0, l_start.1);
    let k1 = key_of_spec(kind, l_end.0, l_end.1);
    crate::lines::bresenham_spec(k0.0, k0.1, k1.0, k1.1)
}

/// How one line insertion changes a container: each cell gained one copy
/// of `t` per occurrence of its key on the path, every other cell is
/// untouched.
pub open spec fn line_add_rel<T>(
    pre: SpatialHash<T>,
    post: SpatialHash<T>,
    path: Seq<(int, int)>,
    t: T,
) -> bool {
    forall|ax: int, ay: int|
        #[trigger] post.cell(ax, ay) == pre.cell(ax, ay) + Seq::new(
            count_key(path, ax, ay),
            |j: int| t,
        ) && (post.has_cell(ax, ay) == (pre.has_cell(ax, ay) || count_key(path, ax, ay) > 0))
}

/// How one `add` changes a container: the cell of the added point gains the
/// value at the end of its list, every other cell is untouched.
pub open spec fn add_rel<T>(
    pre: SpatialHash<T>,
    post: SpatialHash<T>,
    x: Fixed,
    y: Fixed,
    t: T,
) -> bool {
    let (kx, ky) = key_of_spec(pre.kind, x, y);
    &&& post.cell(kx, ky) == pre.cell(kx, ky).push(t)
    &&& post.has_cell(kx, ky)
    &&& frame_except(pre, post, kx, ky)
}

impl<T> SpatialHash<T> {
    /// The bucket index and canonical key of the cell containing `(x, y)`.
    pub fn idx(&self, x: Fixed, y: Fixed) -> (r: (usize, Key))
        requires
            self.kind.wf(),
        ensures
            r.1.x == key_of_spec(self.kind, x, y).0,
            r.1.y == key_of_spec(self.kind, x, y).1,
            -KEY_MAX <= r.1.x <= KEY_MAX,
            -KEY_MAX <= r.1.y <= KEY_MAX,
            r.0 == bucket_of_spec(self.strategy, r.1.x as int, r.1.y as int),
            r.0 < NUM_BUCKETS,
    {
        let key = match self.kind {
            CoordinateKind::Cube { side_len } => {
                let c = Euclidean::from_continuous(x, y, side_len);
                Key { x: c.x, y: c.y }
            },
            CoordinateKind::Tri { side_len } => {
                let c = TriCoord::from_continuous(x, y, side_len);
                c.canon2d()
            },
            CoordinateKind::Hex { circumradius } => {
                let c = HexAxial::from_continuous(x, y, circumradius);
                Key { x: c.q, y: c.r }
            },
        };
        let b = bucket_of(&self.strategy, key);
        (b, key)
    }

    /// The bucket a canonical key falls in.
    pub fn coord_idx(&self, key: Key) -> (b: usize)
        ensures
            b == bucket_of_spec(self.strategy, key.x as int, key.y as int),
            b < NUM_BUCKETS,
    {
        bucket_of(&self.strategy, key)
    }

    /// Append `t` to the cell with the given canonical key, creating the
    /// cell's entry if absent.
    #[verifier::rlimit(100)]
    #[verifier::spinoff_prover]
    fn insert_at_key(&mut self, key: Key, t: T)
        requires
            old(self).wf(),
        ensures
            final(self).wf(),
            final(self).kind == old(self).kind,
            final(self).strategy == old(self).strategy,
            final(self).cell(key.x as int, key.y as int) == old(self).cell(
                key.x as int,
                key.y as int,
            ).push(t),
            final(self).has_cell(key.x as int, key.y as int),
            frame_except(*old(self), *final(self), key.x as int, key.y as int),
    {
        let b = bucket_of(&self.strategy, key);
        let ghost kx = key.x as int;
        let ghost ky = key.y as int;
        let blen: usize = self.data[b].len();
        let mut i: usize = 0;
        let mut found: bool = false;
        let mut fi: usize = 0;
        while i < blen
            invariant
                *self == *old(self),
                kx == key.x as int,
                ky == key.y as int,
                b < self.data@.len(),
                blen == self.data@[b as int]@.len(),
                i <= blen,
                !found ==> forall|j: int|
                    0 <= j < i ==> !entry_matches(#[trigger] self.data@[b as int]@[j], kx, ky),
                found ==> fi < blen && entry_matches(self.data@[b as int]@[fi as int], kx, ky)
                    && forall|j: int|
                    0 <= j < fi ==> !entry_matches(#[trigger] self.data@[b as int]@[j], kx, ky),
            decreases blen - i,
        {
            if !found {
                let ek = self.data[b][i].key;
                proof {
                    assert(ek == self.data@[b as int]@[i as int].key);
                }
                if ek.x == key.x && ek.y == key.y {
                    found = true;
                    fi = i;
                    proof {
                        assert(entry_matches(self.data@[b as int]@[i as int], kx, ky));
                    }
                } else {
                    proof {
                        assert(!entry_matches(self.data@[b as int]@[i as int], kx, ky));
                    }
                }
            }
            i = i + 1;
        }
        let ghost pre = *self;
        let ghost oldbucket = self.data@[b as int]@;
        if found {
            let bucket = &mut self.data[b];
            let entry = &mut bucket[fi];
            entry.vals.push(t);
            proof {
                let newbucket = self.data@[b as int]@;
                let e = newbucket[fi as int];
                assert(newbucket =~= oldbucket.update(fi as int, e));
                assert forall|j: int| 0 <= j < fi implies (#[trigger] oldbucket[j]).key
                    != oldbucket[fi as int].key by {
                    assert(!entry_matches(oldbucket[j], kx, ky));
                }
                lemma_assoc_found(oldbucket, kx, ky, fi as int);
                assert forall|ax: int, ay: int|
                    !(ax == kx && ay == ky) implies #[trigger] self.cell(ax, ay) == pre.cell(
                    ax,
                    ay,
                ) && self.has_cell(ax, ay) == pre.has_cell(ax, ay) by {
                    crate::hash::lemma_bucket_in_range(self.strategy, ax, ay);
                    if bucket_of_spec(self.strategy, ax, ay) == b as int {
                        lemma_assoc_update(oldbucket, fi as int, e, ax, ay);
                    }
                }
                lemma_assoc_update(oldbucket, fi as int, e, kx, ky);
                assert(frame_except(pre, *self, kx, ky));
                assert forall|b2: int| 0 <= b2 < NUM_BUCKETS implies self.bucket_wf(b2) by {
                    assert(pre.bucket_wf(b2));
                    if b2 == b as int {
                        assert(forall|ii: int|
                            0 <= ii < newbucket.len() ==> (#[trigger] newbucket[ii]).key
                                == oldbucket[ii].key);
                        assert(forall|ii: int|
                            0 <= ii < newbucket.len() && ii != fi ==> #[trigger] newbucket[ii]
                                == oldbucket[ii]);
                        assert(newbucket[fi as int].vals@.len() > 0);
                    } else {
                        assert(self.data@[b2] == pre.data@[b2]);
                    }
                }
            }
        } else {
            let mut vals: Vec<T> = Vec::new();
            vals.push(t);
            let e = Entry { key, vals };
            let bucket = &mut self.data[b];
            bucket.push(e);
            proof {
                let newbucket = self.data@[b as int]@;
                assert(newbucket =~= oldbucket.push(newbucket[blen as int]));
                let e2 = newbucket[blen as int];
                lemma_assoc_absent(oldbucket, kx, ky);
                assert forall|ax: int, ay: int|
                    !(ax == kx && ay == ky) implies #[trigger] self.cell(ax, ay) == pre.cell(
                    ax,
                    ay,
                ) && self.has_cell(ax, ay) == pre.has_cell(ax, ay) by {
                    crate::hash::lemma_bucket_in_range(self.strategy, ax, ay);
                    if bucket_of_spec(self.strategy, ax, ay) == b as int {
                        lemma_assoc_push(oldbucket, e2, ax, ay);
                    }
                }
                lemma_assoc_push(oldbucket, e2, kx, ky);
                assert(self.cell(kx, ky) =~= pre.cell(kx, ky).push(t));
                assert(frame_except(pre, *self, kx, ky));
                assert forall|b2: int| 0 <= b2 < NUM_BUCKETS implies self.bucket_wf(b2) by {
                    assert(pre.bucket_wf(b2));
                    if b2 == b as int {
                        assert(forall|ii: int|
                            0 <= ii < oldbucket.len() ==> #[trigger] newbucket[ii]
                                == oldbucket[ii]);
                        assert(e2.key == key);
                        assert(e2.vals@.len() > 0);
                        assert(forall|ii: int|
                            0 <= ii < oldbucket.len() ==> !entry_matches(
                                #[trigger] oldbucket[ii],
                                kx,
                                ky,
                            ));
                        assert(forall|ii: int|
                            0 <= ii < oldbucket.len() ==> (#[trigger] oldbucket[ii]).key
                                != key);
                    } else {
                        assert(self.data@[b2] == pre.data@[b2]);
                    }
                }
            }
        }
    }

    /// Store `t` at the cell containing the continuous point `(x, y)`.
    pub fn add(&mut self, x: Fixed, y: Fixed, t: T)
        requires
            old(self).wf(),
        ensures
            final(self).wf(),
            final(self).kind == old(self).kind,
            final(self).strategy == old(self).strategy,
            add_rel(*old(self), *final(self), x, y, t),
    {
        let (_b, key) = self.idx(x, y);
        self.insert_at_key(key, t);
    }

    /// The values stored at the cell with the given canonical key: `Some`
    /// of the cell's list when the cell has one, `None` when it is empty.
    pub fn lookup_key(&self, key: Key) -> (r: Option<&Vec<T>>)
        requires
            self.wf(),
        ensures
            match r {
                Some(v) => self.has_cell(key.x as int, key.y as int) && v@ == self.cell(
                    key.x as int,
                    key.y as int,
                ) && v@.len() > 0,
                None => !self.has_cell(key.x as int, key.y as int) && self.cell(
                    key.x as int,
                    key.y as int,
                ) == Seq::<T>::empty(),
            },
    {
        let b = bucket_of(&self.strategy, key);
        let ghost kx = key.x as int;
        let ghost ky = key.y as int;
        let blen: usize = self.data[b].len();
        let mut i: usize = 0;
        while i < blen
            invariant
                self.wf(),
                kx == key.x as int,
                ky == key.y as int,
                b == bucket_of_spec(self.strategy, kx, ky),
                b < self.data@.len(),
                blen == self.data@[b as int]@.len(),
                i <= blen,
                forall|j: int|
                    0 <= j < i ==> !entry_matches(#[trigger] self.data@[b as int]@[j], kx, ky),
            decreases blen - i,
        {
            let ek = self.data[b][i].key;
            proof {
                assert(ek == self.data@[b as int]@[i as int].key);
            }
            if ek.x == key.x && ek.y == key.y {
                proof {
                    assert(entry_matches(self.data@[b as int]@[i as int], kx, ky));
                    lemma_assoc_found(self.data@[b as int]@, kx, ky, i as int);
                    assert(self.bucket_wf(b as int));
                    assert(self.data@[b as int]@[i as int].vals@.len() > 0);
                }
                return Some(&self.data[b][i].vals);
            }
            proof {
                assert(!entry_matches(self.data@[b as int]@[i as int], kx, ky));
            }
            i = i + 1;
        }
        proof {
            lemma_assoc_absent(self.data@[b as int]@, kx, ky);
        }
        None
    }

    /// The values stored at the exact cell containing `(x, y)`: `Some` of
    /// the cell's list when the cell has one, `None` when it is empty.
    pub fn query(&self, x: Fixed, y: Fixed) -> (r: Option<&Vec<T>>)
        requires
            self.wf(),
        ensures
            match r {
                Some(v) => self.has_cell(
                    key_of_spec(self.kind, x, y).0,
                    key_of_spec(self.kind, x, y).1,
                ) && v@ == self.cell(key_of_spec(self.kind, x, y).0, key_of_spec(self.kind, x, y).1)
                    && v@.len() > 0,
                None => !self.has_cell(
                    key_of_spec(self.kind, x, y).0,
                    key_of_spec(self.kind, x, y).1,
                ) && self.cell(key_of_spec(self.kind, x, y).0, key_of_spec(self.kind, x, y).1)
                    == Seq::<T>::empty(),
            },
    {
        let (_b, key) = self.idx(x, y);
        self.lookup_key(key)
    }

    /// The canonical keys inspected for a ring query at `(x, y)`: the ring
    /// neighbors of the containing cell, in table order, then the cell
    /// itself.
    pub fn ring_keys(&self, x: Fixed, y: Fixed) -> (r: Vec<Key>)
        requires
            self.kind.wf(),
        ensures
            r@.len() == ring_keys_spec(self.kind, x, y).len(),
            forall|i: int|
                0 <= i < r@.len() ==> (#[trigger] r@[i]).x == ring_keys_spec(
                    self.kind,
                    x,
                    y,
                )[i].0 && r@[i].y == ring_keys_spec(self.kind, x, y)[i].1,
    {
        let mut r: Vec<Key> = Vec::new();
        match self.kind {
            CoordinateKind::Cube { side_len } => {
                let c = Euclidean::from_continuous(x, y, side_len);
                let ring = c.one_ring();
                let mut i: usize = 0;
                while i < ring.len()
                    invariant
                        ring@.len() == 8,
                        self.kind == (CoordinateKind::Cube { side_len }),
                        forall|j: int|
                            0 <= j < 8 ==> (#[trigger] ring@[j]).x == square_ring_spec(
                                c.x as int,
                                c.y as int,
                            )[j].0 && ring@[j].y == square_ring_spec(c.x as int, c.y as int)[j].1,
                        (c.x as int, c.y as int) == key_of_spec(self.kind, x, y),
                        i <= 8,
                        r@.len() == i,
                        forall|j: int|
                            0 <= j < i ==> (#[trigger] r@[j]).x == ring_keys_spec(
                                self.kind,
                                x,
                                y,
                            )[j].0 && r@[j].y == ring_keys_spec(self.kind, x, y)[j].1,
                    decreases 8 - i,
                {
                    let n = ring[i];
                    r.push(Key { x: n.x, y: n.y });
                    i = i + 1;
                }
                r.push(Key { x: c.x, y: c.y });
            },
            CoordinateKind::Hex { circumradius } => {
                let c = HexAxial::from_continuous(x, y, circumradius);
                let ring = c.one_ring();
                let mut i: usize = 0;
                while i < ring.len()
                    invariant
                        ring@.len() == 6,
                        self.kind == (CoordinateKind::Hex { circumradius }),
                        forall|j: int|
                            0 <= j < 6 ==> (#[trigger] ring@[j]).q == hex_ring_spec(
                                c.q as int,
                                c.r as int,
                            )[j].0 && ring@[j].r == hex_ring_spec(c.q as int, c.r as int)[j].1,
                        (c.q as int, c.r as int) == key_of_spec(self.kind, x, y),
                        i <= 6,
                        r@.len() == i,
                        forall|j: int|
                            0 <= j < i ==> (#[trigger] r@[j]).x == ring_keys_spec(
                                self.kind,
                                x,
                                y,
                            )[j].0 && r@[j].y == ring_keys_spec(self.kind, x, y)[j].1,
                    decreases 6 - i,
                {
                    let n = ring[i];
                    r.push(Key { x: n.q, y: n.r });
                    i = i + 1;
                }
                r.push(Key { x: c.q, y: c.r });
            },
            CoordinateKind::Tri { side_len } => {
                let c = TriCoord::from_continuous(x, y, side_len);
                let ring = c.one_ring();
                proof {
                    crate::coordinates::lemma_tri_ring_distinct(
                        c.s as int,
                        c.t as int,
                        c.u as int,
                    );
                }
                let mut i: usize = 0;
                while i < ring.len()
                    invariant
                        ring@.len() == 12,
                        self.kind == (CoordinateKind::Tri { side_len }),
                        c.s + c.t + c.u == 1 || c.s + c.t + c.u == 2,
                        -CELL_MAX <= c.s <= CELL_MAX,
                        -CELL_MAX <= c.t <= CELL_MAX,
                        -CELL_MAX <= c.u <= CELL_MAX,
                        (c.s as int, c.t as int, c.u as int) == tri_cell_spec(
                            x.raw as int,
                            y.raw as int,
                            match self.kind {
                                CoordinateKind::Tri { side_len } => side_len.raw as int,
                                _ => 0,
                            },
                        ),
                        forall|j: int|
                            0 <= j < 12 ==> {
                                let rs = tri_ring_spec(c.s as int, c.t as int, c.u as int);
                                (#[trigger] ring@[j]).s == rs[j].0 && ring@[j].t == rs[j].1
                                    && ring@[j].u == rs[j].2
                            },
                        forall|j: int|
                            0 <= j < 12 ==> {
                                let n = #[trigger] tri_ring_spec(
                                    c.s as int,
                                    c.t as int,
                                    c.u as int,
                                )[j];
                                n.0 + n.1 + n.2 == 1 || n.0 + n.1 + n.2 == 2
                            },
                        i <= 12,
                        r@.len() == i,
                        forall|j: int|
                            0 <= j < i ==> (#[trigger] r@[j]).x == ring_keys_spec(
                                self.kind,
                                x,
                                y,
                            )[j].0 && r@[j].y == ring_keys_spec(self.kind, x, y)[j].1,
                    decreases 12 - i,
                {
                    let n = ring[i];
                    let k = n.canon2d();
                    r.push(k);
                    i = i + 1;
                }
                let k = c.canon2d();
                r.push(k);
            },
        }
        r
    }

    /// The per-cell value lists of the present cells among `ks`, in `ks`
    /// order; absent cells contribute nothing.
    pub open spec fn gather(self, ks: Seq<(int, int)>) -> Seq<Seq<T>>
        decreases ks.len(),
    {
        if ks.len() == 0 {
            Seq::empty()
        } else {
            let rest = self.gather(ks.drop_last());
            let k = ks.last();
            if self.has_cell(k.0, k.1) {
                rest.push(self.cell(k.0, k.1))
            } else {
                rest
            }
        }
    }

    /// The values stored near `(x, y)`: one list per present cell among
    /// the containing cell's ring neighbors and the cell itself (in that
    /// order); cells without an entry contribute nothing, not an empty
    /// placeholder.
    pub fn query_one_ring(&self, x: Fixed, y: Fixed) -> (r: Vec<Vec<T>>)
        where
            T: Copy,
        requires
            self.wf(),
        ensures
            r@.map_values(|v: Vec<T>| v@) == self.gather(ring_keys_spec(self.kind, x, y)),
    {
        let keys = self.ring_keys(x, y);
        let ghost ks = ring_keys_spec(self.kind, x, y);
        let mut r: Vec<Vec<T>> = Vec::new();
        let mut i: usize = 0;
        while i < keys.len()
            invariant
                self.wf(),
                ks == ring_keys_spec(self.kind, x, y),
                keys@.len() == ks.len(),
                forall|j: int|
                    0 <= j < keys@.len() ==> (#[trigger] keys@[j]).x == ks[j].0 && keys@[j].y
                        == ks[j].1,
                i <= keys@.len(),
                r@.map_values(|v: Vec<T>| v@) == self.gather(ks.subrange(0, i as int)),
            decreases keys@.len() - i,
        {
            proof {
                assert(ks.subrange(0, i as int + 1).drop_last() =~= ks.subrange(0, i as int));
                assert(ks.subrange(0, i as int + 1).last() == ks[i as int]);
            }
            let k = keys[i];
            match self.lookup_key(k) {
                Some(v) => {
                    let c = copy_vals(v);
                    r.push(c);
                    proof {
                        assert(r@.map_values(|v: Vec<T>| v@) =~= self.gather(
                            ks.subrange(0, i as int + 1),
                        ));
                    }
                },
                None => {
                    proof {
                        assert(r@.map_values(|v: Vec<T>| v@) =~= self.gather(
                            ks.subrange(0, i as int + 1),
                        ));
                    }
                },
            }
            i = i + 1;
        }
        proof {
            assert(ks.subrange(0, ks.len() as int) =~= ks);
        }
        r
    }

    /// Store a copy of `t` into the cell containing `(x, y)` and every
    /// ring neighbor of that cell, invoking `cb` with a snapshot of each
    /// cell's updated list as it is touched — broad-phase replication, so
    /// that a later query from an adjacent cell still finds the value.
    pub fn add_one_ring<F: Fn(Vec<T>)>(&mut self, x: Fixed, y: Fixed, t: T, cb: F)
        where
            T: Copy,
        requires
            old(self).wf(),
            forall|v: Vec<T>| call_requires(cb, (v,)),
        ensures
            final(self).wf(),
            final(self).kind == old(self).kind,
            final(self).strategy == old(self).strategy,
            ring_add_rel(*old(self), *final(self), ring_keys_spec(old(self).kind, x, y), t),
    {
        let keys = self.ring_keys(x, y);
        let ghost ks = ring_keys_spec(self.kind, x, y);
        proof {
            lemma_ring_keys_distinct(self.kind, x, y);
            assert(ks.subrange(0, 0) =~= Seq::<(int, int)>::empty());
        }
        let mut i: usize = 0;
        while i < keys.len()
            invariant
                self.wf(),
                self.kind == old(self).kind,
                self.strategy == old(self).strategy,
                forall|v: Vec<T>| call_requires(cb, (v,)),
                ks == ring_keys_spec(old(self).kind, x, y),
                keys@.len() == ks.len(),
                forall|j: int|
                    0 <= j < keys@.len() ==> (#[trigger] keys@[j]).x == ks[j].0 && keys@[j].y
                        == ks[j].1,
                forall|i2: int, j2: int| 0 <= i2 < j2 < ks.len() ==> ks[i2] != ks[j2],
                i <= keys@.len(),
                ring_add_rel(*old(self), *self, ks.subrange(0, i as int), t),
            decreases keys@.len() - i,
        {
            let k = keys[i];
            let ghost pre_i = *self;
            let ghost sub = ks.subrange(0, i as int);
            let ghost sub1 = ks.subrange(0, i as int + 1);
            self.insert_at_key(k, t);
            proof {
                assert(sub1 =~= sub.push(ks[i as int]));
                assert(!sub.contains(ks[i as int])) by {
                    if sub.contains(ks[i as int]) {
                        let j = choose|j: int|
                            0 <= j < sub.len() && sub[j] == ks[i as int];
                        assert(ks[j] == ks[i as int]);
                    }
                }
                assert(pre_i.cell(k.x as int, k.y as int) == old(self).cell(
                    k.x as int,
                    k.y as int,
                ));
                assert forall|ax: int, ay: int| sub1.contains((ax, ay)) implies #[trigger] self
                    .cell(ax, ay) == old(self).cell(ax, ay).push(t) && self.has_cell(ax, ay) by {
                    if (ax, ay) == ks[i as int] {
                        assert(self.cell(ax, ay) == pre_i.cell(ax, ay).push(t));
                    } else {
                        let j = choose|j: int|
                            0 <= j < sub1.len() && sub1[j] == (ax, ay);
                        assert(sub[j] == (ax, ay));
                        assert(sub.contains((ax, ay)));
                        assert(pre_i.cell(ax, ay) == old(self).cell(ax, ay).push(t));
                        assert(self.cell(ax, ay) == pre_i.cell(ax, ay));
                    }
                }
                assert forall|ax: int, ay: int| !sub1.contains((ax, ay)) implies #[trigger] self
                    .cell(ax, ay) == old(self).cell(ax, ay) && self.has_cell(ax, ay) == old(
                    self,
                ).has_cell(ax, ay) by {
                    assert((ax, ay) != ks[i as int]) by {
                        if (ax, ay) == ks[i as int] {
                            assert(sub1[i as int] == (ax, ay));
                        }
                    }
                    assert(!sub.contains((ax, ay))) by {
                        if sub.contains((ax, ay)) {
                            let j = choose|j: int|
                                0 <= j < sub.len() && sub[j] == (ax, ay);
                            assert(sub1[j] == (ax, ay));
                        }
                    }
                    assert(pre_i.cell(ax, ay) == old(self).cell(ax, ay));
                    assert(self.cell(ax, ay) == pre_i.cell(ax, ay));
                }
                assert(ring_add_rel(*old(self), *self, sub1, t));
            }
            let vcopy = match self.lookup_key(k) {
                Some(v) => copy_vals(v),
                None => Vec::new(),
            };
            cb(vcopy);
            i = i + 1;
        }
        proof {
            assert(ks.subrange(0, ks.len() as int) =~= ks);
        }
    }

    /// The position of the entry for `key` in bucket `b`, if any.
    fn find_slot(&self, b: usize, key: Key) -> (r: (bool, usize))
        requires
            b < self.data@.len(),
        ensures
            r.0 ==> r.1 < self.data@[b as int]@.len() && entry_matches(
                self.data@[b as int]@[r.1 as int],
                key.x as int,
                key.y as int,
            ) && forall|j: int|
                0 <= j < r.1 ==> !entry_matches(
                    #[trigger] self.data@[b as int]@[j],
                    key.x as int,
                    key.y as int,
                ),
            !r.0 ==> forall|j: int|
                0 <= j < self.data@[b as int]@.len() ==> !entry_matches(
                    #[trigger] self.data@[b as int]@[j],
                    key.x as int,
                    key.y as int,
                ),
    {
        let ghost kx = key.x as int;
        let ghost ky = key.y as int;
        let blen: usize = self.data[b].len();
        let mut i: usize = 0;
        while i < blen
            invariant
                kx == key.x as int,
                ky == key.y as int,
                b < self.data@.len(),
                blen == self.data@[b as int]@.len(),
                i <= blen,
                forall|j: int|
                    0 <= j < i ==> !entry_matches(#[trigger] self.data@[b as int]@[j], kx, ky),
            decreases blen - i,
        {
            let ek = self.data[b][i].key;
            proof {
                assert(ek == self.data@[b as int]@[i as int].key);
            }
            if ek.x == key.x && ek.y == key.y {
                return (true, i);
            }
            proof {
                assert(!entry_matches(self.data@[b as int]@[i as int], kx, ky));
            }
            i = i + 1;
        }
        (false, 0)
    }

    /// Keep at most one logical value per cell.  An empty cell takes `t`
    /// directly; a cell holding exactly one value `w` is replaced by
    /// `resolve(t, w)`; a cell holding more than one value is a broken
    /// caller invariant, reported by returning `false` with the container
    /// unchanged.
    #[verifier::rlimit(100)]
    #[verifier::spinoff_prover]
    pub fn add_with_conflict_resolution<F: Fn(T, T) -> T>(
        &mut self,
        x: Fixed,
        y: Fixed,
        t: T,
        resolve: F,
    ) -> (ok: bool)
        requires
            old(self).wf(),
            forall|a: T, b: T| call_requires(resolve, (a, b)),
        ensures
            final(self).wf(),
            final(self).kind == old(self).kind,
            final(self).strategy == old(self).strategy,
            ({
                let (kx, ky) = key_of_spec(old(self).kind, x, y);
                &&& old(self).cell(kx, ky).len() == 0 ==> ok && final(self).cell(kx, ky)
                    == seq![t] && final(self).has_cell(kx, ky) && frame_except(
                    *old(self),
                    *final(self),
                    kx,
                    ky,
                )
                &&& old(self).cell(kx, ky).len() == 1 ==> ok && (exists|w: T|
                    call_ensures(resolve, (t, old(self).cell(kx, ky)[0]), w) && final(self).cell(
                        kx,
                        ky,
                    ) == seq![w]) && final(self).has_cell(kx, ky) && frame_except(
                    *old(self),
                    *final(self),
                    kx,
                    ky,
                )
                &&& old(self).cell(kx, ky).len() > 1 ==> !ok && *final(self) == *old(self)
            }),
    {
        let (b, key) = self.idx(x, y);
        let ghost kx = key.x as int;
        let ghost ky = key.y as int;
        let (found, fi) = self.find_slot(b, key);
        if !found {
            proof {
                lemma_assoc_absent(self.data@[b as int]@, kx, ky);
            }
            self.insert_at_key(key, t);
            proof {
                assert(self.cell(kx, ky) =~= seq![t]);
            }
            return true;
        }
        proof {
            lemma_assoc_found(self.data@[b as int]@, kx, ky, fi as int);
        }
        let vlen = self.data[b][fi].vals.len();
        if vlen != 1 {
            proof {
                assert(self.bucket_wf(b as int));
                assert(self.cell(kx, ky).len() > 1);
            }
            return false;
        }
        let ghost pre = *self;
        let ghost oldbucket = self.data@[b as int]@;
        let ghost oldvals = self.data@[b as int]@[fi as int].vals@;
        let bucket = &mut self.data[b];
        let entry = &mut bucket[fi];
        let popped = entry.vals.pop();
        match popped {
            Some(w) => {
                let r = resolve(t, w);
                entry.vals.push(r);
                proof {
                    let newbucket = self.data@[b as int]@;
                    let e = newbucket[fi as int];
                    assert(e.vals@ =~= seq![r]);
                    assert(newbucket =~= oldbucket.update(fi as int, e));
                    assert forall|j: int| 0 <= j < fi implies (#[trigger] oldbucket[j]).key
                        != oldbucket[fi as int].key by {
                        assert(!entry_matches(oldbucket[j], kx, ky));
                    }
                    assert forall|ax: int, ay: int|
                        !(ax == kx && ay == ky) implies #[trigger] self.cell(ax, ay) == pre.cell(
                        ax,
                        ay,
                    ) && self.has_cell(ax, ay) == pre.has_cell(ax, ay) by {
                        crate::hash::lemma_bucket_in_range(self.strategy, ax, ay);
                        if bucket_of_spec(self.strategy, ax, ay) == b as int {
                            lemma_assoc_update(oldbucket, fi as int, e, ax, ay);
                        }
                    }
                    lemma_assoc_update(oldbucket, fi as int, e, kx, ky);
                    assert(frame_except(pre, *self, kx, ky));
                    assert(w == oldvals[0]);
                    assert(call_ensures(resolve, (t, pre.cell(kx, ky)[0]), r));
                    assert(self.cell(kx, ky) == seq![r]);
                    assert forall|b2: int| 0 <= b2 < NUM_BUCKETS implies self.bucket_wf(b2) by {
                        assert(pre.bucket_wf(b2));
                        if b2 == b as int {
                            assert(forall|ii: int|
                                0 <= ii < newbucket.len() ==> (#[trigger] newbucket[ii]).key
                                    == oldbucket[ii].key);
                            assert(forall|ii: int|
                                0 <= ii < newbucket.len() && ii != fi ==> #[trigger] newbucket[ii]
                                    == oldbucket[ii]);
                            assert(newbucket[fi as int].vals@.len() > 0);
                        } else {
                            assert(self.data@[b2] == pre.data@[b2]);
                        }
                    }
                }
            },
            None => {},
        }
        true
    }

    /// Store a copy of `t` into every square-walk cell between the cells
    /// of the two continuous endpoints, rasterized by [`crate::lines::bresenham`]
    /// over the canonical keys of the endpoints.
    pub fn add_line_bresenham(&mut self, l_start: (Fixed, Fixed), l_end: (Fixed, Fixed), t: T)
        where
            T: Copy,
        requires
            old(self).wf(),
        ensures
            final(self).wf(),
            final(self).kind == old(self).kind,
            final(self).strategy == old(self).strategy,
            line_add_rel(
                *old(self),
                *final(self),
                line_path_spec(old(self).kind, l_start, l_end),
                t,
            ),
    {
        let (_b0, k0) = self.idx(l_start.0, l_start.1);
        let (_b1, k1) = self.idx(l_end.0, l_end.1);
        let path = crate::lines::bresenham(k0, k1);
        let ghost ps = line_path_spec(self.kind, l_start, l_end);
        proof {
            assert(ps == crate::lines::keys_to_pairs(path@));
            assert(ps.subrange(0, 0) =~= Seq::<(int, int)>::empty());
            assert forall|ax: int, ay: int| #[trigger] self.cell(ax, ay) == self.cell(ax, ay)
                + Seq::new(count_key(ps.subrange(0, 0), ax, ay), |j: int| t) && (
            self.has_cell(ax, ay) == (self.has_cell(ax, ay) || count_key(
                ps.subrange(0, 0),
                ax,
                ay,
            ) > 0)) by {
                assert(count_key(ps.subrange(0, 0), ax, ay) == 0);
                assert(self.cell(ax, ay) + Seq::new(0nat, |j: int| t) =~= self.cell(ax, ay));
            }
        }
        let mut i: usize = 0;
        while i < path.len()
            invariant
                self.wf(),
                self.kind == old(self).kind,
                self.strategy == old(self).strategy,
                ps == line_path_spec(old(self).kind, l_start, l_end),
                ps == crate::lines::keys_to_pairs(path@),
                ps.len() == path@.len(),
                forall|j: int|
                    0 <= j < path@.len() ==> (#[trigger] path@[j]).x == ps[j].0 && path@[j].y
                        == ps[j].1,
                i <= path@.len(),
                line_add_rel(*old(self), *self, ps.subrange(0, i as int), t),
            decreases path@.len() - i,
        {
            let k = path[i];
            let ghost pre_i = *self;
            let ghost sub = ps.subrange(0, i as int);
            let ghost sub1 = ps.subrange(0, i as int + 1);
            self.insert_at_key(k, t);
            proof {
                assert(sub1 =~= sub.push(ps[i as int]));
                assert forall|ax: int, ay: int| #[trigger]
                    count_key(sub1, ax, ay) == count_key(sub, ax, ay) + (if (ax, ay) == ps[
                    i as int
                ] {
                    1nat
                } else {
                    0nat
                }) by {
                    assert(sub1.drop_last() =~= sub);
                }
                assert forall|ax: int, ay: int| #[trigger] self.cell(ax, ay) == old(self).cell(
                    ax,
                    ay,
                ) + Seq::new(count_key(sub1, ax, ay), |j: int| t) && (self.has_cell(
                    ax,
                    ay,
                ) == (old(self).has_cell(ax, ay) || count_key(sub1, ax, ay) > 0)) by {
                    let c0 = count_key(sub, ax, ay);
                    let c1 = count_key(sub1, ax, ay);
                    assert(sub1.drop_last() =~= sub);
                    assert(sub1.last() == ps[i as int]);
                    if (ax, ay) == (ps[i as int].0, ps[i as int].1) {
                        assert(c1 == c0 + 1);
                        assert(self.cell(ax, ay) == pre_i.cell(ax, ay).push(t));
                        assert(pre_i.cell(ax, ay) == old(self).cell(ax, ay) + Seq::new(
                            c0,
                            |j: int| t,
                        ));
                        assert(self.cell(ax, ay) =~= old(self).cell(ax, ay) + Seq::new(
                            c1,
                            |j: int| t,
                        ));
                    } else {
                        assert(self.cell(ax, ay) == pre_i.cell(ax, ay));
                        assert(self.has_cell(ax, ay) == pre_i.has_cell(ax, ay));
                        assert(c1 == c0);
                    }
                }
                assert(line_add_rel(*old(self), *self, sub1, t));
            }
            i = i + 1;
        }
        proof {
            assert(ps.subrange(0, ps.len() as int) =~= ps);
        }
    }

    /// Every non-empty cell of the container, as its canonical key paired
    /// with a copy of the cell's values: each listed cell is real, every
    /// stored cell is listed, and no key appears twice.
    pub fn iter(&self) -> (r: Vec<(Key, Vec<T>)>)
        where
            T: Copy,
        requires
            self.wf(),
        ensures
            forall|j: int|
                0 <= j < r@.len() ==> (#[trigger] r@[j]).1@ == self.cell(
                    r@[j].0.x as int,
                    r@[j].0.y as int,
                ) && self.has_cell(r@[j].0.x as int, r@[j].0.y as int) && r@[j].1@.len() > 0,
            forall|ax: int, ay: int|
                #[trigger] self.has_cell(ax, ay) ==> exists|j: int|
                    0 <= j < r@.len() && (#[trigger] r@[j]).0.x == ax && r@[j].0.y == ay,
            forall|j1: int, j2: int| 0 <= j1 < j2 < r@.len() ==> r@[j1].0 != r@[j2].0,
    {
        let mut r: Vec<(Key, Vec<T>)> = Vec::new();
        let mut b: usize = 0;
        while b < NUM_BUCKETS
            invariant
                self.wf(),
                b <= NUM_BUCKETS,
                forall|j: int|
                    0 <= j < r@.len() ==> (#[trigger] r@[j]).1@ == self.cell(
                        r@[j].0.x as int,
                        r@[j].0.y as int,
                    ) && self.has_cell(r@[j].0.x as int, r@[j].0.y as int) && r@[j].1@.len() > 0,
                forall|j: int|
                    0 <= j < r@.len() ==> 0 <= bucket_of_spec(
                        self.strategy,
                        (#[trigger] r@[j]).0.x as int,
                        r@[j].0.y as int,
                    ) < b,
                forall|ax: int, ay: int|
                    #[trigger] self.has_cell(ax, ay) && bucket_of_spec(self.strategy, ax, ay) < b
                        ==> exists|j: int|
                        0 <= j < r@.len() && (#[trigger] r@[j]).0.x == ax && r@[j].0.y == ay,
                forall|j1: int, j2: int| 0 <= j1 < j2 < r@.len() ==> r@[j1].0 != r@[j2].0,
            decreases NUM_BUCKETS - b,
        {
            let blen: usize = self.data[b].len();
            let mut i: usize = 0;
            while i < blen
                invariant
                    self.wf(),
                    b < NUM_BUCKETS,
                    blen == self.data@[b as int]@.len(),
                    i <= blen,
                    forall|j: int|
                        0 <= j < r@.len() ==> (#[trigger] r@[j]).1@ == self.cell(
                            r@[j].0.x as int,
                            r@[j].0.y as int,
                        ) && self.has_cell(r@[j].0.x as int, r@[j].0.y as int) && r@[j].1@.len()
                            > 0,
                    forall|j: int|
                        0 <= j < r@.len() ==> {
                            let bj = bucket_of_spec(
                                self.strategy,
                                (#[trigger] r@[j]).0.x as int,
                                r@[j].0.y as int,
                            );
                            bj < b || (bj == b && exists|ii: int|
                                0 <= ii < i && (#[trigger] self.data@[b as int]@[ii]).key == r@[
                                    j
                                ].0)
                        },
                    forall|ax: int, ay: int|
                        #[trigger] self.has_cell(ax, ay) && bucket_of_spec(
                            self.strategy,
                            ax,
                            ay,
                        ) < b ==> exists|j: int|
                            0 <= j < r@.len() && (#[trigger] r@[j]).0.x == ax && r@[j].0.y == ay,
                    forall|ii: int|
                        0 <= ii < i ==> exists|j: int|
                            0 <= j < r@.len() && (#[trigger] r@[j]).0 == (#[trigger] self.data@[
                                b as int
                            ]@[ii]).key,
                    forall|j1: int, j2: int| 0 <= j1 < j2 < r@.len() ==> r@[j1].0 != r@[j2].0,
                decreases blen - i,
            {
                let k = self.data[b][i].key;
                let v = copy_vals(&self.data[b][i].vals);
                proof {
                    assert(self.bucket_wf(b as int));
                    let bk = self.data@[b as int]@;
                    assert(entry_matches(bk[i as int], k.x as int, k.y as int));
                    assert forall|j: int| 0 <= j < i implies !entry_matches(
                        #[trigger] bk[j],
                        k.x as int,
                        k.y as int,
                    ) by {
                        assert(bk[j].key != bk[i as int].key);
                    }
                    lemma_assoc_found(bk, k.x as int, k.y as int, i as int);
                    assert(bucket_of_spec(self.strategy, k.x as int, k.y as int) == b as int);
                }
                let ghost r_old = r@;
                r.push((k, v));
                proof {
                    assert forall|j1: int, j2: int| 0 <= j1 < j2 < r@.len() implies r@[j1].0
                        != r@[j2].0 by {
                        if j2 == r@.len() - 1 {
                            let bj = bucket_of_spec(
                                self.strategy,
                                r@[j1].0.x as int,
                                r@[j1].0.y as int,
                            );
                            if bj == b as int {
                                let ii = choose|ii: int|
                                    0 <= ii < i && (#[trigger] self.data@[b as int]@[ii]).key
                                        == r@[j1].0;
                                assert(self.data@[b as int]@[ii].key != self.data@[
                                    b as int
                                ]@[i as int].key);
                            }
                        }
                    }
                    assert forall|ii: int| 0 <= ii < i + 1 implies exists|j: int|
                        0 <= j < r@.len() && (#[trigger] r@[j]).0 == (#[trigger] self.data@[
                            b as int
                        ]@[ii]).key by {
                        if ii < i {
                            let j = choose|j: int|
                                0 <= j < r_old.len() && (#[trigger] r_old[j]).0 == self.data@[
                                    b as int
                                ]@[ii].key;
                            assert(r@[j].0 == self.data@[b as int]@[ii].key);
                        } else {
                            assert(r@[r@.len() - 1].0 == self.data@[b as int]@[ii].key);
                        }
                    }
                    assert forall|ax: int, ay: int|
                        #[trigger] self.has_cell(ax, ay) && bucket_of_spec(
                            self.strategy,
                            ax,
                            ay,
                        ) < b implies exists|j: int|
                        0 <= j < r@.len() && (#[trigger] r@[j]).0.x == ax && r@[j].0.y == ay by {
                        let j = choose|j: int|
                            0 <= j < r_old.len() && (#[trigger] r_old[j]).0.x == ax && r_old[
                                j
                            ].0.y == ay;
                        assert(r@[j].0.x == ax && r@[j].0.y == ay);
                    }
                }
                i = i + 1;
            }
            proof {
                assert forall|ax: int, ay: int|
                    #[trigger] self.has_cell(ax, ay) && bucket_of_spec(
                        self.strategy,
                        ax,
                        ay,
                    ) < b + 1 implies exists|j: int|
                    0 <= j < r@.len() && (#[trigger] r@[j]).0.x == ax && r@[j].0.y == ay by {
                    if bucket_of_spec(self.strategy, ax, ay) == b as int {
                        let bk = self.data@[b as int]@;
                        lemma_assoc_has_index(bk, ax, ay);
                        let ii = choose|ii: int|
                            0 <= ii < bk.len() && entry_matches(#[trigger] bk[ii], ax, ay);
                        let j = choose|j: int|
                            0 <= j < r@.len() && (#[trigger] r@[j]).0 == bk[ii].key;
                        assert(r@[j].0.x == ax && r@[j].0.y == ay);
                    }
                }
            }
            b = b + 1;
        }
        r
    }

    /// Whether two continuous points fall into the same exact cell.
    pub fn same_bin(&self, x: Fixed, y: Fixed, a: Fixed, b: Fixed) -> (r: bool)
        requires
            self.kind.wf(),
        ensures
            r == (key_of_spec(self.kind, x, y) == key_of_spec(self.kind, a, b)),
    {
        let (_b1, k1) = self.idx(x, y);
        let (_b2, k2) = self.idx(a, b);
        k1.x == k2.x && k1.y == k2.y
    }
}

impl<T> Default for SpatialHash<T> {
    /// An empty container over triangular cells of side length one.
    fn default() -> (sh: Self)
        ensures
            sh.wf(),
            sh.kind == (CoordinateKind::Tri { side_len: Fixed { raw: 65536 } }),
            sh.is_empty_spec(),
            forall|kx: int, ky: int| #[trigger] sh.cell(kx, ky) == Seq::<T>::empty(),
            forall|kx: int, ky: int| !#[trigger] sh.has_cell(kx, ky),
    {
        Self::new(CoordinateKind::Tri { side_len: Fixed { raw: 65536 } })
    }
}

/// The canonical keys a ring operation at `(x, y)` touches: the keys of
/// the ring neighbors of the containing cell, in table order, then the key
/// of the cell itself.
pub open spec fn ring_keys_spec(kind: CoordinateKind, x: Fixed, y: Fixed) -> Seq<(int, int)> {
    match kind {
        CoordinateKind::Cube { side_len } => {
            let c = square_cell_spec(x.raw as int, y.raw as int, side_len.raw as int);
            crate::coordinates::square_ring_spec(c.0, c.1).push(c)
        },
        CoordinateKind::Hex { circumradius } => {
            let c = hex_cell_spec(x.raw as int, y.raw as int, circumradius.raw as int);
            crate::coordinates::hex_ring_spec(c.0, c.1).push(c)
        },
        CoordinateKind::Tri { side_len } => {
            let c = tri_cell_spec(x.raw as int, y.raw as int, side_len.raw as int);
            tri_ring_spec(c.0, c.1, c.2).map_values(
                |n: (int, int, int)| tri_canon_spec(n.0, n.1, n.2),
            ).push(tri_canon_spec(c.0, c.1, c.2))
        },
    }
}

/// The keys a ring operation touches are pairwise distinct: the ring is
/// made of distinct cells, none the center, and the canonical key is
/// injective.  One ring insertion therefore touches each cell once.
pub proof fn lemma_ring_keys_distinct(kind: CoordinateKind, x: Fixed, y: Fixed)
    requires
        kind.wf(),
    ensures
        forall|i: int, j: int|
            0 <= i < j < ring_keys_spec(kind, x, y).len() ==> ring_keys_spec(kind, x, y)[i]
                != ring_keys_spec(kind, x, y)[j],
{
    let ks = ring_keys_spec(kind, x, y);
    match kind {
        CoordinateKind::Cube { side_len } => {
            let c = square_cell_spec(x.raw as int, y.raw as int, side_len.raw as int);
            crate::coordinates::lemma_square_ring_distinct(c.0, c.1);
        },
        CoordinateKind::Hex { circumradius } => {
            let c = hex_cell_spec(x.raw as int, y.raw as int, circumradius.raw as int);
            crate::coordinates::lemma_hex_ring_distinct(c.0, c.1);
        },
        CoordinateKind::Tri { side_len } => {
            let c = tri_cell_spec(x.raw as int, y.raw as int, side_len.raw as int);
            let ring = tri_ring_spec(c.0, c.1, c.2);
            crate::coordinates::lemma_tri_cell_valid(
                x.raw as int,
                y.raw as int,
                side_len.raw as int,
            );
            crate::coordinates::lemma_tri_ring_distinct(c.0, c.1, c.2);
            assert forall|i: int, j: int| 0 <= i < j < ks.len() implies ks[i] != ks[j] by {
                if j < 12 {
                    let ni = ring[i];
                    let nj = ring[j];
                    if tri_canon_spec(ni.0, ni.1, ni.2) == tri_canon_spec(nj.0, nj.1, nj.2) {
                        crate::coordinates::lemma_tri_canon_injective(
                            ni.0,
                            ni.1,
                            ni.2,
                            nj.0,
                            nj.1,
                            nj.2,
                        );
                    }
                } else {
                    let ni = ring[i];
                    if tri_canon_spec(ni.0, ni.1, ni.2) == tri_canon_spec(c.0, c.1, c.2) {
                        crate::coordinates::lemma_tri_canon_injective(
                            ni.0,
                            ni.1,
                            ni.2,
                            c.0,
                            c.1,
                            c.2,
                        );
                    }
                }
            }
        },
    }
}

/// Round-trip: a value just stored at a point is among the values a query
/// of the same point returns (`add` appends it to the cell's list, and
/// `query` returns exactly that list).
pub proof fn lemma_add_round_trip<T>(
    pre: SpatialHash<T>,
    post: SpatialHash<T>,
    x: Fixed,
    y: Fixed,
    t: T,
)
    requires
        add_rel(pre, post, x, y, t),
    ensures
        post.has_cell(key_of_spec(pre.kind, x, y).0, key_of_spec(pre.kind, x, y).1),
        post.cell(key_of_spec(pre.kind, x, y).0, key_of_spec(pre.kind, x, y).1).contains(t),
{
    let (kx, ky) = key_of_spec(pre.kind, x, y);
    let s = post.cell(kx, ky);
    assert(s[s.len() - 1] == t);
}

} // verus!
