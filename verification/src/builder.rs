use vstd::prelude::*;
use crate::colors::Color;
use crate::curve::{bit_length, bits_required, hilbert_point, plane_point};
use crate::raster::{Image, ImageView, Placement, can_paint, paint, paint_allowed, painted, lemma_painted_shows_placements};
use crate::sample::{Sample, SampleRecord, is_ordered_sampling};
use crate::sort::{is_stable_sort_by_key, lex_lt, stable_sort_by_key};

verus! {

/// A position on the plane.
#[derive(Clone, Copy, Debug, PartialEq, Eq)]
pub struct Position<T> {
    pub x: T,
    pub y: T,
}

impl<T> Position<T> {
    pub fn new(x: T, y: T) -> (p: Self)
        ensures
            p.x == x,
            p.y == y,
    {
        Position { x, y }
    }
}

/// The message of the error returned when the samples do not fit in the image.
pub open spec fn cannot_embed_message() -> Seq<char> {
    "The image cannot embed the samples"@
}

/// What a builder holds: the samples (each with its index) in drawing order,
/// the image size and the background color.
pub struct BuilderView {
    pub samples: Seq<(usize, Sample)>,
    pub width: nat,
    pub height: nat,
    pub background: Color,
}

impl BuilderView {
    /// Number of pixels left free once every sample has one.
    pub open spec fn hole_size(self) -> int {
        self.width * self.height - self.samples.len()
    }

    /// Bits per axis of the Hilbert curve: enough for the largest index
    /// `nb_samples - 1` (computed on the number of samples as a `u32`).
    pub open spec fn curve_bits(self) -> nat {
        bit_length((((self.samples.len() as u32) as int) - 1) as nat)
    }

    /// Index on the curve of a sample of the given order: the samples are
    /// centred on the curve, half of the free pixels before them.
    pub open spec fn curve_index(self, order: int) -> int {
        order + self.hole_size() / 2
    }

    /// The pixel of the k-th sample, with the sample's index.
    pub open spec fn coordinate(self, k: int) -> (usize, u32, u32) {
        let p = hilbert_point(self.curve_index(self.samples[k].1.order as int) as nat, self.curve_bits(), 2);
        (self.samples[k].0, p[0], p[1])
    }

    pub open spec fn coordinates(self) -> Seq<(usize, u32, u32)> {
        Seq::new(self.samples.len(), |k: int| self.coordinate(k))
    }

    /// The inputs on which the Hilbert coordinates can be computed: at least
    /// two samples and at most 2^31 (counted as a `u32`, so that the power of
    /// two above their number fits a `u32`), and curve indices that fit a `usize`.
    pub open spec fn can_place(self) -> bool {
        &&& (self.samples.len() as u32) >= 2
        &&& (self.samples.len() as u32) <= 0x8000_0000
        &&& forall|k: int| 0 <= k < self.samples.len() ==> #[trigger] self.curve_index(self.samples[k].1.order as int) <= usize::MAX
    }

    /// Each sample's pixel with the palette color of its label.
    pub open spec fn placements(self, palette: Seq<Color>) -> Seq<Placement> {
        Seq::new(self.samples.len(), |k: int| (self.coordinate(k).1, self.coordinate(k).2, palette[self.samples[k].1.label as int]))
    }

    /// The positions of the samples keyed by their index, in drawing order.
    pub open spec fn keyed_positions(self) -> Seq<(usize, Position<u32>)> {
        Seq::new(self.samples.len(), |k: int| (self.coordinate(k).0, Position { x: self.coordinate(k).1, y: self.coordinate(k).2 }))
    }
}

/// Draws ordered samples along a Hilbert curve in an image.
pub struct FractalImageBuilder {
    ordered_samples: Vec<(usize, Sample)>,
    width: usize,
    height: usize,
    background: Color,
}

impl View for FractalImageBuilder {
    type V = BuilderView;

    closed spec fn view(&self) -> BuilderView {
        BuilderView {
            samples: self.ordered_samples@,
            width: self.width as nat,
            height: self.height as nat,
            background: self.background,
        }
    }
}

impl FractalImageBuilder {
    #[verifier::type_invariant]
    spec fn inv(&self) -> bool {
        &&& self.width as nat * self.height as nat <= usize::MAX
        &&& self.ordered_samples.len() <= self.width as nat * self.height as nat
    }

    /// A builder on a black background; an error when the image has fewer
    /// pixels than there are samples.
    pub fn new(ordered_samples: Vec<(usize, Sample)>, width: usize, height: usize) -> (r: Result<FractalImageBuilder, &'static str>)
        requires
            width as nat * height as nat <= usize::MAX,
        ensures
            r is Err <==> width * height < ordered_samples.len(),
            r matches Err(e) ==> e@ == cannot_embed_message(),
            r matches Ok(b) ==> b@ == (BuilderView {
                samples: ordered_samples@,
                width: width as nat,
                height: height as nat,
                background: Color::black_spec(),
            }),
    {
        if width * height < ordered_samples.len() {
            Err("The image cannot embed the samples")
        } else {
            Self::new_with_background(ordered_samples, width, height, Color::black())
        }
    }

    /// A builder with the given background; an error when the image has fewer
    /// pixels than there are samples.
    pub fn new_with_background(
        ordered_samples: Vec<(usize, Sample)>,
        width: usize,
        height: usize,
        background: Color,
    ) -> (r: Result<FractalImageBuilder, &'static str>)
        requires
            width as nat * height as nat <= usize::MAX,
        ensures
            r is Err <==> width * height < ordered_samples.len(),
            r matches Err(e) ==> e@ == cannot_embed_message(),
            r matches Ok(b) ==> b@ == (BuilderView {
                samples: ordered_samples@,
                width: width as nat,
                height: height as nat,
                background,
            }),
    {
        if width * height < ordered_samples.len() {
            Err("The image cannot embed the samples")
        } else {
            Ok(FractalImageBuilder { ordered_samples, width, height, background })
        }
    }

    pub fn nb_samples(&self) -> (n: usize)
        ensures
            n == self@.samples.len(),
    {
        self.ordered_samples.len()
    }

    pub fn width(&self) -> (w: usize)
        ensures
            w == self@.width,
    {
        self.width
    }

    pub fn height(&self) -> (h: usize)
        ensures
            h == self@.height,
    {
        self.height
    }

    /// The samples in drawing order.
    pub fn samples(&self) -> (s: &Vec<(usize, Sample)>)
        ensures
            s@ == self@.samples,
    {
        &self.ordered_samples
    }

    /// Generate the coordinates to use within the image: for each sample, its
    /// index and its point on the Hilbert curve.
    pub fn produce_coordinates(&self) -> (r: Vec<(usize, u32, u32)>)
        requires
            self@.can_place(),
        ensures
            r@ == self@.coordinates(),
    {
        proof { use_type_invariant(self); }
        let nb = self.ordered_samples.len();
        let hole_size = self.width * self.height - nb;
        let bits = bits_required((nb as u32) - 1);
        let mut out: Vec<(usize, u32, u32)> = Vec::new();
        for k in 0..nb
            invariant
                nb == self@.samples.len(),
                self@.can_place(),
                hole_size == self@.hole_size(),
                bits == self@.curve_bits(),
                1 <= bits <= 32,
                out.len() == k,
                forall|j: int| 0 <= j < k ==> #[trigger] out[j] == self@.coordinate(j),
        {
            let s = self.ordered_samples[k];
            assert(self@.curve_index(self@.samples[k as int].1.order as int) <= usize::MAX);
            let index = s.1.order + hole_size / 2;
            let p = plane_point(index as u64, bits);
            out.push((s.0, p.0, p.1));
        }
        assert(out@ == self@.coordinates());
        out
    }

    /// The positions of the samples, keyed by their index and sorted by it
    /// (a stable sort).
    pub fn positions_by_index(&self) -> (r: Vec<(usize, Position<u32>)>)
        requires
            self@.can_place(),
        ensures
            exists|perm: Seq<int>| is_stable_sort_by_key(self@.keyed_positions(), r@, perm),
    {
        let coords = self.produce_coordinates();
        let n = coords.len();
        let mut keyed: Vec<(usize, Position<u32>)> = Vec::new();
        for k in 0..n
            invariant
                n == coords.len(),
                coords@ == self@.coordinates(),
                keyed.len() == k,
                forall|j: int| 0 <= j < k ==> #[trigger] keyed[j] == self@.keyed_positions()[j],
        {
            let (idx, x, y) = coords[k];
            keyed.push((idx, Position::new(x, y)));
        }
        assert(keyed@ == self@.keyed_positions());
        stable_sort_by_key(&keyed)
    }

    /// Each sample's pixel with the palette color of its label, in drawing order.
    pub fn placements(&self, palette: &[Color]) -> (r: Vec<Placement>)
        requires
            self@.can_place(),
            forall|k: int| 0 <= k < self@.samples.len() ==> (#[trigger] self@.samples[k]).1.label < palette.len(),
        ensures
            r@ == self@.placements(palette@),
    {
        let coords = self.produce_coordinates();
        let n = coords.len();
        let mut placements: Vec<Placement> = Vec::new();
        for k in 0..n
            invariant
                n == coords.len(),
                n == self@.samples.len(),
                coords@ == self@.coordinates(),
                forall|j: int| 0 <= j < self@.samples.len() ==> (#[trigger] self@.samples[j]).1.label < palette.len(),
                placements.len() == k,
                forall|j: int| 0 <= j < k ==> #[trigger] placements[j] == self@.placements(palette@)[j],
        {
            let (_, x, y) = coords[k];
            let label = self.ordered_samples[k].1.label;
            placements.push((x, y, palette[label]));
        }
        assert(placements@ == self@.placements(palette@));
        placements
    }

    /// Produce an image of the builder's size: the background, with each
    /// sample's pixel in the palette color of its label. Every sample must fall
    /// inside the image, on a pixel that no other sample has colored before.
    pub fn produce_image(&self, palette: &[Color]) -> (img: Image)
        requires
            self@.can_place(),
            self@.width <= u32::MAX,
            self@.height <= u32::MAX,
            forall|k: int| 0 <= k < self@.samples.len() ==> (#[trigger] self@.samples[k]).1.label < palette.len(),
            paint_allowed(self@.width, self@.height, self@.background, self@.placements(palette@)),
        ensures
            img@ == (ImageView {
                width: self@.width,
                height: self@.height,
                pixels: painted(self@.width, self@.height, self@.background, self@.placements(palette@)),
            }),
    {
        proof { use_type_invariant(self); }
        let placements = self.placements(palette);
        paint(self.width as u32, self.height as u32, self.background, &placements)
    }

    /// `produce_image` where it can draw every sample; `None` when a sample
    /// falls outside the image or on a pixel that another sample has already
    /// colored.
    pub fn try_produce_image(&self, palette: &[Color]) -> (r: Option<Image>)
        requires
            self@.can_place(),
            self@.width <= u32::MAX,
            self@.height <= u32::MAX,
            forall|k: int| 0 <= k < self@.samples.len() ==> (#[trigger] self@.samples[k]).1.label < palette.len(),
        ensures
            r is Some <==> paint_allowed(self@.width, self@.height, self@.background, self@.placements(palette@)),
            r matches Some(img) ==> img@ == (ImageView {
                width: self@.width,
                height: self@.height,
                pixels: painted(self@.width, self@.height, self@.background, self@.placements(palette@)),
            }),
    {
        proof { use_type_invariant(self); }
        let placements = self.placements(palette);
        if can_paint(self.width as u32, self.height as u32, self.background, &placements) {
            Some(self.produce_image(palette))
        } else {
            None
        }
    }

    /// The pixels of the curve for a fake data set of `nb_samples` samples
    /// ordered 0, 1, ...: the coordinates a builder would give them.
    pub fn fake_coordinates(width: usize, height: usize, nb_samples: usize) -> (r: Vec<(u32, u32)>)
        requires
            width as nat * height as nat <= usize::MAX,
            nb_samples <= width * height,
            (nb_samples as u32) >= 2,
            (nb_samples as u32) <= 0x8000_0000,
        ensures
            r.len() == nb_samples,
            forall|id: int| 0 <= id < nb_samples ==> {
                let p = hilbert_point(
                    (id + (width * height - nb_samples) / 2) as nat,
                    bit_length((((nb_samples as u32) as int) - 1) as nat),
                    2,
                );
                #[trigger] r[id] == (p[0], p[1])
            },
    {
        let hole_size = width * height - nb_samples;
        let bits = bits_required((nb_samples as u32) - 1);
        let mut out: Vec<(u32, u32)> = Vec::new();
        for id in 0..nb_samples
            invariant
                nb_samples <= width * height,
                width as nat * height as nat <= usize::MAX,
                hole_size == width * height - nb_samples,
                bits == bit_length((((nb_samples as u32) as int) - 1) as nat),
                1 <= bits <= 32,
                out.len() == id,
                forall|j: int| 0 <= j < id ==> {
                    let p = hilbert_point(
                        (j + (width * height - nb_samples) / 2) as nat,
                        bit_length((((nb_samples as u32) as int) - 1) as nat),
                        2,
                    );
                    #[trigger] out[j] == (p[0], p[1])
                },
        {
            let p = plane_point((id + hole_size / 2) as u64, bits);
            out.push(p);
        }
        out
    }
}


/// Every sample is drawn: in an image that `produce_image` returns, the pixel
/// of each sample shows the palette color of its label, unless that color is
/// the background.
pub proof fn lemma_samples_visible(b: BuilderView, palette: Seq<Color>)
    requires
        paint_allowed(b.width, b.height, b.background, b.placements(palette)),
    ensures
        forall|k: int| 0 <= k < b.samples.len() ==> {
            let color = palette[(#[trigger] b.samples[k]).1.label as int];
            color == b.background
                || painted(b.width, b.height, b.background, b.placements(palette))[b.coordinate(k).2 * b.width + b.coordinate(k).1] == color
        },
{
    let ps = b.placements(palette);
    lemma_painted_shows_placements(b.width, b.height, b.background, ps);
    assert forall|k: int| 0 <= k < b.samples.len() implies {
        let color = palette[(#[trigger] b.samples[k]).1.label as int];
        color == b.background
            || painted(b.width, b.height, b.background, ps)[b.coordinate(k).2 * b.width + b.coordinate(k).1] == color
    } by {
        assert(ps[k] == (b.coordinate(k).1, b.coordinate(k).2, palette[b.samples[k].1.label as int]));
        assert(ps[k].2 == b.background || painted(b.width, b.height, b.background, ps)[ps[k].1 * b.width + ps[k].0] == ps[k].2);
    }
}


/// A strictly increasing sequence of `n` indices below `n` is 0, 1, ..., n - 1.
proof fn lemma_increasing_indices(keys: Seq<int>)
    requires
        forall|k: int| 0 <= k < keys.len() ==> 0 <= #[trigger] keys[k] < keys.len(),
        forall|k1: int, k2: int| 0 <= k1 < k2 < keys.len() ==> #[trigger] keys[k1] < #[trigger] keys[k2],
    ensures
        forall|k: int| 0 <= k < keys.len() ==> #[trigger] keys[k] == k,
{
    assert forall|k: int| 0 <= k < keys.len() implies #[trigger] keys[k] >= k by {
        lemma_increasing_lower(keys, k);
    }
    assert forall|k: int| 0 <= k < keys.len() implies #[trigger] keys[k] <= k by {
        lemma_increasing_upper(keys, k);
    }
}

proof fn lemma_increasing_lower(keys: Seq<int>, k: int)
    requires
        0 <= k < keys.len(),
        forall|j: int| 0 <= j < keys.len() ==> 0 <= #[trigger] keys[j] < keys.len(),
        forall|k1: int, k2: int| 0 <= k1 < k2 < keys.len() ==> #[trigger] keys[k1] < #[trigger] keys[k2],
    ensures
        keys[k] >= k,
    decreases k,
{
    if k > 0 {
        lemma_increasing_lower(keys, k - 1);
        assert(keys[k - 1] < keys[k]);
    }
}

proof fn lemma_increasing_upper(keys: Seq<int>, k: int)
    requires
        0 <= k < keys.len(),
        forall|j: int| 0 <= j < keys.len() ==> 0 <= #[trigger] keys[j] < keys.len(),
        forall|k1: int, k2: int| 0 <= k1 < k2 < keys.len() ==> #[trigger] keys[k1] < #[trigger] keys[k2],
    ensures
        keys[k] <= k,
    decreases keys.len() - k,
{
    if k < keys.len() - 1 {
        lemma_increasing_upper(keys, k + 1);
        assert(keys[k] < keys[k + 1]);
    }
}

/// Drawing samples taken in order from records and then listing their
/// positions by index gives the positions back in the order of the records:
/// the k-th position is the one of record k.
pub proof fn lemma_positions_in_record_order(records: Seq<SampleRecord>, b: BuilderView, r: Seq<(usize, Position<u32>)>)
    requires
        is_ordered_sampling(records, b.samples),
        exists|perm: Seq<int>| is_stable_sort_by_key(b.keyed_positions(), r, perm),
    ensures
        r.len() == records.len(),
        forall|k: int| 0 <= k < r.len() ==> (#[trigger] r[k]).0 == k,
{
    let perm = choose|perm: Seq<int>| is_stable_sort_by_key(b.keyed_positions(), r, perm);
    let input = b.keyed_positions();
    let n = records.len() as int;
    // the indices of the samples are distinct
    assert forall|k1: int, k2: int| 0 <= k1 < n && 0 <= k2 < n && k1 != k2 implies #[trigger] b.samples[k1].0 != #[trigger] b.samples[k2].0 by {
        if k1 < k2 {
            assert(lex_lt(b.samples[k1].1.order as int, b.samples[k1].0 as int, b.samples[k2].1.order as int, b.samples[k2].0 as int));
        } else {
            assert(lex_lt(b.samples[k2].1.order as int, b.samples[k2].0 as int, b.samples[k1].1.order as int, b.samples[k1].0 as int));
        }
    }
    assert forall|k: int| 0 <= k < n implies #[trigger] input[k].0 == b.samples[k].0 by {}
    let keys = Seq::new(r.len(), |k: int| r[k].0 as int);
    assert forall|k: int| 0 <= k < keys.len() implies 0 <= #[trigger] keys[k] < keys.len() by {
        assert(r[k] == input[perm[k]]);
    }
    assert forall|k1: int, k2: int| 0 <= k1 < k2 < keys.len() implies #[trigger] keys[k1] < #[trigger] keys[k2] by {
        assert(lex_lt(r[k1].0 as int, perm[k1], r[k2].0 as int, perm[k2]));
        assert(r[k1] == input[perm[k1]]);
        assert(r[k2] == input[perm[k2]]);
        if perm[k1] == perm[k2] {
            assert(false);
        }
    }
    lemma_increasing_indices(keys);
    assert forall|k: int| 0 <= k < r.len() implies (#[trigger] r[k]).0 == k by {
        assert(keys[k] == k);
    }
}


/// The samples are centred on the Hilbert curve: sample k is drawn at the
/// point of index `order + (width * height - nb_samples) / 2` of the curve
/// whose bits per axis are the bit length of `nb_samples - 1`, in its label's
/// palette color.
pub proof fn lemma_samples_centred_on_curve(b: BuilderView, palette: Seq<Color>)
    ensures
        forall|k: int| 0 <= k < b.samples.len() ==> {
            let p = hilbert_point(
                (b.samples[k].1.order + (b.width * b.height - b.samples.len()) / 2) as nat,
                bit_length((((b.samples.len() as u32) as int) - 1) as nat),
                2,
            );
            &&& #[trigger] b.coordinate(k) == (b.samples[k].0, p[0], p[1])
            &&& b.placements(palette)[k] == (p[0], p[1], palette[b.samples[k].1.label as int])
        },
{
}

/// Samples ordered 0, 1, ..., n - 1 are drawn exactly where the fake data
/// set of n samples is: the k-th coordinate is the k-th fake coordinate.
pub proof fn lemma_ordered_samples_match_fake(b: BuilderView)
    requires
        forall|k: int| 0 <= k < b.samples.len() ==> (#[trigger] b.samples[k]).1.order == k,
    ensures
        forall|k: int| 0 <= k < b.samples.len() ==> {
            let p = hilbert_point(
                (k + (b.width * b.height - b.samples.len()) / 2) as nat,
                bit_length((((b.samples.len() as u32) as int) - 1) as nat),
                2,
            );
            (#[trigger] b.coordinate(k).1, b.coordinate(k).2) == (p[0], p[1])
        },
{
    lemma_samples_centred_on_curve(b, Seq::empty());
    assert forall|k: int| 0 <= k < b.samples.len() implies {
        let p = hilbert_point(
            (k + (b.width * b.height - b.samples.len()) / 2) as nat,
            bit_length((((b.samples.len() as u32) as int) - 1) as nat),
            2,
        );
        (#[trigger] b.coordinate(k).1, b.coordinate(k).2) == (p[0], p[1])
    } by {
        assert(b.samples[k].1.order == k);
    }
}

} // verus!
