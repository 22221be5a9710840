//! The viewer's state and decisions, apart from WebGL: the clump-boundary
//! segments of the overlay buffer, the selected clumps, the order in which
//! boundaries are drawn, the centroid markers, the cache of flux planes, and
//! the expansion of composite RGB bytes to an RGBA texture.

use std::collections::HashSet;

use vstd::prelude::*;

use crate::text::str_eq;

verus! {

broadcast use vstd::std_specs::hash::group_hash_axioms;

// ---------------------------------------------------------------------------
// Boundary segments
// ---------------------------------------------------------------------------

/// One clump's vertex range within the overlay buffer, drawn as a line strip.
#[derive(Clone, Copy, Debug)]
pub struct Segment {
    pub id: i64,
    pub start: i32,
    pub count: i32,
}

/// The sum of the first `k` vertex counts.
pub open spec fn prefix_sum(counts: Seq<i32>, k: int) -> int
    decreases k,
{
    if k <= 0 {
        0
    } else {
        prefix_sum(counts, k - 1) + counts[k - 1]
    }
}

/// How many segments a pair of `counts` and `ids` describes: one per pair,
/// the longer list's tail being ignored.
pub open spec fn pair_count(counts: Seq<i32>, ids: Seq<i64>) -> int {
    if counts.len() <= ids.len() {
        counts.len() as int
    } else {
        ids.len() as int
    }
}

/// Every running total of the counts, through the last pair, fits in an `i32`.
pub open spec fn sums_fit(counts: Seq<i32>, ids: Seq<i64>) -> bool {
    forall|k: int|
        0 < k <= pair_count(counts, ids) ==> i32::MIN <= #[trigger] prefix_sum(counts, k)
            <= i32::MAX
}

/// The segments for consecutive clumps whose vertex counts are `counts` and
/// whose ids are `ids`: segment `j` starts where segment `j - 1` ended.
pub fn segments_from_counts(counts: &[i32], ids: &[i64]) -> (r: Vec<Segment>)
    requires
        sums_fit(counts@, ids@),
    ensures
        r@.len() == pair_count(counts@, ids@),
        forall|j: int|
            0 <= j < r@.len() ==> (#[trigger] r@[j]).id == ids@[j] && r@[j].count == counts@[j]
                && r@[j].start == prefix_sum(counts@, j),
{
    let mut segments: Vec<Segment> = Vec::new();
    let mut start: i32 = 0;
    let mut j: usize = 0;
    while j < counts.len() && j < ids.len()
        invariant
            j <= counts@.len(),
            j <= ids@.len(),
            sums_fit(counts@, ids@),
            segments@.len() == j,
            start == prefix_sum(counts@, j as int),
            forall|i: int|
                0 <= i < j ==> (#[trigger] segments@[i]).id == ids@[i] && segments@[i].count
                    == counts@[i] && segments@[i].start == prefix_sum(counts@, i),
        decreases counts.len() - j,
    {
        segments.push(Segment { id: ids[j], start, count: counts[j] });
        proof {
            assert(0 < j + 1 <= pair_count(counts@, ids@));
            assert(i32::MIN <= prefix_sum(counts@, j + 1) <= i32::MAX);
        }
        start = start + counts[j];
        j = j + 1;
    }
    segments
}

// ---------------------------------------------------------------------------
// Selection, draw order and centroids
// ---------------------------------------------------------------------------

/// One boundary to draw: a vertex range, and whether it is drawn in the
/// selection colour.
#[derive(Clone, Copy, Debug)]
pub struct BoundaryDraw {
    pub start: i32,
    pub count: i32,
    pub selected: bool,
}

/// The boundaries among `segs` whose selection state is `selected`, in order.
pub open spec fn draws_of(segs: Seq<Segment>, sel: Set<i64>, selected: bool) -> Seq<BoundaryDraw>
    decreases segs.len(),
{
    if segs.len() == 0 {
        Seq::empty()
    } else {
        let rest = draws_of(segs.drop_last(), sel, selected);
        let s = segs.last();
        if sel.contains(s.id) == selected {
            rest.push(BoundaryDraw { start: s.start, count: s.count, selected })
        } else {
            rest
        }
    }
}

/// Every boundary is drawn exactly once: the unselected and the selected
/// draws together are as many as the segments, and each draw carries the
/// colour of its group.
pub proof fn lemma_each_boundary_drawn_once(segs: Seq<Segment>, sel: Set<i64>)
    ensures
        draws_of(segs, sel, false).len() + draws_of(segs, sel, true).len() == segs.len(),
        forall|i: int|
            0 <= i < draws_of(segs, sel, true).len() ==> (#[trigger] draws_of(segs, sel, true)[i]).selected,
        forall|i: int|
            0 <= i < draws_of(segs, sel, false).len() ==> !(#[trigger] draws_of(
                segs,
                sel,
                false,
            )[i]).selected,
    decreases segs.len(),
{
    if segs.len() > 0 {
        lemma_each_boundary_drawn_once(segs.drop_last(), sel);
    }
}

/// Each selected draw is the range of a selected segment, and each
/// unselected draw the range of an unselected one.
pub proof fn lemma_draws_come_from_segments(segs: Seq<Segment>, sel: Set<i64>, b: bool)
    ensures
        forall|i: int|
            #![trigger draws_of(segs, sel, b)[i]]
            0 <= i < draws_of(segs, sel, b).len() ==> exists|j: int|
                #![trigger segs[j]]
                0 <= j < segs.len() && sel.contains(segs[j].id) == b && segs[j].start == draws_of(
                    segs,
                    sel,
                    b,
                )[i].start && segs[j].count == draws_of(segs, sel, b)[i].count,
    decreases segs.len(),
{
    if segs.len() > 0 {
        let init = segs.drop_last();
        lemma_draws_come_from_segments(init, sel, b);
        let n = draws_of(init, sel, b).len() as int;
        assert forall|i: int| #![trigger draws_of(segs, sel, b)[i]]
            0 <= i < draws_of(segs, sel, b).len() implies exists|j: int|
            #![trigger segs[j]]
            0 <= j < segs.len() && sel.contains(segs[j].id) == b && segs[j].start == draws_of(
                segs,
                sel,
                b,
            )[i].start && segs[j].count == draws_of(segs, sel, b)[i].count by {
            if i < n {
                assert(draws_of(segs, sel, b)[i] == draws_of(init, sel, b)[i]);
                let j = choose|j: int|
                    #![trigger init[j]]
                    0 <= j < init.len() && sel.contains(init[j].id) == b && init[j].start == draws_of(
                        init,
                        sel,
                        b,
                    )[i].start && init[j].count == draws_of(init, sel, b)[i].count;
                assert(segs[j] == init[j]);
            } else {
                let j = segs.len() - 1;
                assert(segs[j] == segs.last());
                assert(sel.contains(segs.last().id) == b);
            }
        }
    }
}

/// A boundary is drawn in the selection colour exactly when its clump is
/// selected, whatever its id: each segment's range appears among the
/// selected draws when its id is in the selection and among the unselected
/// draws otherwise.
pub proof fn lemma_draw_group_follows_selection(segs: Seq<Segment>, sel: Set<i64>)
    ensures
        forall|j: int|
            0 <= j < segs.len() ==> draws_of(segs, sel, sel.contains(#[trigger] segs[j].id)).contains(
                BoundaryDraw { start: segs[j].start, count: segs[j].count, selected: sel.contains(segs[j].id) },
            ),
    decreases segs.len(),
{
    if segs.len() > 0 {
        let init = segs.drop_last();
        lemma_draw_group_follows_selection(init, sel);
        assert forall|j: int| 0 <= j < segs.len() implies draws_of(segs, sel, sel.contains(#[trigger] segs[j].id)).contains(
            BoundaryDraw { start: segs[j].start, count: segs[j].count, selected: sel.contains(segs[j].id) },
        ) by {
            let b = sel.contains(segs[j].id);
            let d = BoundaryDraw { start: segs[j].start, count: segs[j].count, selected: b };
            if j < segs.len() - 1 {
                assert(init[j] == segs[j]);
                assert(draws_of(init, sel, sel.contains(init[j].id)).contains(d));
                let t = choose|t: int| 0 <= t < draws_of(init, sel, b).len() && draws_of(init, sel, b)[t] == d;
                assert(draws_of(segs, sel, b)[t] == d);
            } else {
                let n = draws_of(init, sel, b).len() as int;
                assert(draws_of(segs, sel, b)[n] == d);
            }
        }
    }
}

/// Consecutive segments tile the overlay buffer: segment `j + 1` starts where
/// segment `j` ends.
pub proof fn lemma_segments_tile(counts: Seq<i32>, j: int)
    requires
        0 <= j < counts.len(),
    ensures
        prefix_sum(counts, j + 1) == prefix_sum(counts, j) + counts[j],
{
}

/// After the selection is set to `ids`, a clump is selected exactly when
/// `ids` names it; an empty list selects nothing.
pub proof fn lemma_selection_is_the_given_ids(ids: Seq<i64>, id: i64)
    ensures
        ids.to_set().contains(id) <==> ids.contains(id),
        ids.len() == 0 ==> ids.to_set() == Set::<i64>::empty(),
{
    if ids.len() == 0 {
        assert(ids.to_set() =~= Set::<i64>::empty());
    }
}

/// What the overlay shows on top of the image: the clump boundaries, the
/// selected clumps, and the centroid markers.
#[derive(Debug)]
pub struct Overlay {
    segments: Vec<Segment>,
    selected: HashSet<i64>,
    show_centroids: bool,
    n_centroids: i32,
}

impl Overlay {
    /// The boundary segments, in order.
    pub closed spec fn segments_view(&self) -> Seq<Segment> {
        self.segments@
    }

    /// The ids of the selected clumps.
    pub closed spec fn selection(&self) -> Set<i64> {
        self.selected@
    }

    pub closed spec fn shows_centroids(&self) -> bool {
        self.show_centroids
    }

    pub closed spec fn centroid_total(&self) -> i32 {
        self.n_centroids
    }

    /// An overlay with no boundaries, nothing selected and centroids hidden.
    pub fn new() -> (o: Overlay)
        ensures
            o.segments_view() == Seq::<Segment>::empty(),
            o.selection() == Set::<i64>::empty(),
            !o.shows_centroids(),
            o.centroid_total() == 0,
    {
        Overlay { segments: Vec::new(), selected: HashSet::new(), show_centroids: false, n_centroids: 0 }
    }

    /// Replaces the boundaries: `counts[j]` vertices for clump `ids[j]`,
    /// consecutive in the overlay buffer.
    pub fn set_boundaries(&mut self, counts: &[i32], ids: &[i64])
        requires
            sums_fit(counts@, ids@),
        ensures
            final(self).segments_view().len() == pair_count(counts@, ids@),
            forall|j: int|
                #![trigger final(self).segments_view()[j]]
                0 <= j < final(self).segments_view().len() ==> final(self).segments_view()[j].id
                    == ids@[j] && final(self).segments_view()[j].count == counts@[j]
                    && final(self).segments_view()[j].start == prefix_sum(counts@, j),
            final(self).selection() == old(self).selection(),
            final(self).shows_centroids() == old(self).shows_centroids(),
            final(self).centroid_total() == old(self).centroid_total(),
    {
        self.segments = segments_from_counts(counts, ids);
    }

    /// Replaces the selection with the clumps in `ids`; an empty slice clears it.
    pub fn set_selected(&mut self, ids: &[i64])
        ensures
            final(self).selection() == ids@.to_set(),
            final(self).segments_view() == old(self).segments_view(),
            final(self).shows_centroids() == old(self).shows_centroids(),
            final(self).centroid_total() == old(self).centroid_total(),
    {
        self.selected.clear();
        let mut j: usize = 0;
        while j < ids.len()
            invariant
                j <= ids@.len(),
                self.selected@ == ids@.take(j as int).to_set(),
                self.segments@ == old(self).segments@,
                self.show_centroids == old(self).show_centroids,
                self.n_centroids == old(self).n_centroids,
            decreases ids.len() - j,
        {
            let id = ids[j];
            proof {
                assert(ids@.take(j + 1) =~= ids@.take(j as int).push(id));
                ids@.take(j as int).lemma_push_to_set_commute(id);
            }
            self.selected.insert(id);
            j = j + 1;
        }
        proof {
            assert(ids@.take(ids@.len() as int) =~= ids@);
        }
    }

    /// Whether clump `id` is selected.
    pub fn is_selected(&self, id: i64) -> (r: bool)
        ensures
            r == self.selection().contains(id),
    {
        self.selected.contains(&id)
    }

    /// The boundaries in drawing order: every unselected one first, then the
    /// selected ones on top, each group in segment order.
    pub fn boundary_draws(&self) -> (r: Vec<BoundaryDraw>)
        ensures
            r@ == draws_of(self.segments_view(), self.selection(), false) + draws_of(
                self.segments_view(),
                self.selection(),
                true,
            ),
    {
        let mut plain: Vec<BoundaryDraw> = Vec::new();
        let mut picked: Vec<BoundaryDraw> = Vec::new();
        let mut j: usize = 0;
        while j < self.segments.len()
            invariant
                j <= self.segments@.len(),
                plain@ == draws_of(self.segments@.take(j as int), self.selection(), false),
                picked@ == draws_of(self.segments@.take(j as int), self.selection(), true),
            decreases self.segments.len() - j,
        {
            let s = self.segments[j];
            let sel = self.is_selected(s.id);
            proof {
                assert(self.segments@.take(j + 1).drop_last() =~= self.segments@.take(j as int));
            }
            if sel {
                picked.push(BoundaryDraw { start: s.start, count: s.count, selected: true });
            } else {
                plain.push(BoundaryDraw { start: s.start, count: s.count, selected: false });
            }
            j = j + 1;
        }
        proof {
            assert(self.segments@.take(self.segments@.len() as int) =~= self.segments@);
        }
        let mut k: usize = 0;
        let ghost first = plain@;
        while k < picked.len()
            invariant
                k <= picked@.len(),
                plain@ == first + picked@.take(k as int),
            decreases picked.len() - k,
        {
            plain.push(picked[k]);
            k = k + 1;
            proof {
                assert(plain@ =~= first + picked@.take(k as int));
            }
        }
        proof {
            assert(picked@.take(picked@.len() as int) =~= picked@);
        }
        plain
    }

    /// Records centroid positions given as `len` floats, `x, y` in turn: one
    /// marker per whole pair, the count kept as an `i32` (truncating).
    pub fn set_centroids(&mut self, len: usize)
        ensures
            final(self).centroid_total() == (len / 2) as i32,
            final(self).segments_view() == old(self).segments_view(),
            final(self).selection() == old(self).selection(),
            final(self).shows_centroids() == old(self).shows_centroids(),
    {
        self.n_centroids = (len / 2) as i32;
    }

    /// Shows or hides the centroid markers.
    pub fn set_show_centroids(&mut self, v: bool)
        ensures
            final(self).shows_centroids() == v,
            final(self).segments_view() == old(self).segments_view(),
            final(self).selection() == old(self).selection(),
            final(self).centroid_total() == old(self).centroid_total(),
    {
        self.show_centroids = v;
    }

    /// The number of centroid markers recorded.
    pub fn centroid_count(&self) -> (r: i32)
        ensures
            r == self.centroid_total(),
    {
        self.n_centroids
    }

    /// Whether centroid markers are drawn: they are shown and there is one.
    pub fn draws_centroids(&self) -> (r: bool)
        ensures
            r == (self.shows_centroids() && self.centroid_total() > 0),
    {
        self.show_centroids && self.n_centroids > 0
    }
}

// ---------------------------------------------------------------------------
// RGBA texture
// ---------------------------------------------------------------------------

/// Interleaved RGB bytes as opaque RGBA: one pixel per whole triple, a
/// trailing partial triple being dropped.
pub fn rgb_to_rgba(rgb: &[u8]) -> (out: Vec<u8>)
    ensures
        out@.len() == rgb@.len() / 3 * 4,
        forall|i: int, c: int|
            0 <= i < rgb@.len() / 3 && 0 <= c < 3 ==> #[trigger] out@[4 * i + c] == rgb@[3 * i + c],
        forall|i: int| 0 <= i < rgb@.len() / 3 ==> #[trigger] out@[4 * i + 3] == 255,
{
    let len = rgb.len();
    let n = len / 3;
    let mut out: Vec<u8> = Vec::new();
    let mut i: usize = 0;
    while i < n
        invariant
            len == rgb@.len(),
            n == rgb@.len() / 3,
            i <= n,
            out@.len() == 4 * i,
            forall|p: int, c: int|
                0 <= p < i && 0 <= c < 3 ==> #[trigger] out@[4 * p + c] == rgb@[3 * p + c],
            forall|p: int| 0 <= p < i ==> #[trigger] out@[4 * p + 3] == 255,
        decreases n - i,
    {
        proof {
            assert(3 * i + 2 < rgb@.len()) by (nonlinear_arith)
                requires
                    i < n,
                    n == rgb@.len() / 3,
            ;
        }
        let a: usize = 3 * i;
        out.push(rgb[a]);
        out.push(rgb[a + 1]);
        out.push(rgb[a + 2]);
        out.push(255);
        proof {
            assert forall|p: int, c: int| 0 <= p < i + 1 && 0 <= c < 3 implies #[trigger] out@[4 * p
                + c] == rgb@[3 * p + c] by {
                if p == i {
                    assert(c == 0 || c == 1 || c == 2);
                }
            }
        }
        i = i + 1;
    }
    out
}

// ---------------------------------------------------------------------------
// Rendering choices
// ---------------------------------------------------------------------------

/// The stretch applied to a single filter.
#[derive(PartialEq, Eq, Structural, Clone, Copy, Debug)]
pub enum StretchKind {
    Log,
    LuptonAsinh,
}

/// The method of an RGB composite.
#[derive(PartialEq, Eq, Structural, Clone, Copy, Debug)]
pub enum CompositeKind {
    PercentileAsinh,
    Lupton,
}

/// `"log"` selects the log stretch; any other name the Lupton asinh stretch.
pub fn stretch_for(name: &str) -> (k: StretchKind)
    ensures
        k == (if name@ == "log"@ {
            StretchKind::Log
        } else {
            StretchKind::LuptonAsinh
        }),
{
    if str_eq(name, "log") {
        StretchKind::Log
    } else {
        StretchKind::LuptonAsinh
    }
}

/// `"lupton"` selects the Lupton composite; any other name the percentile
/// asinh composite.
pub fn composite_for(name: &str) -> (k: CompositeKind)
    ensures
        k == (if name@ == "lupton"@ {
            CompositeKind::Lupton
        } else {
            CompositeKind::PercentileAsinh
        }),
{
    if str_eq(name, "lupton") {
        CompositeKind::Lupton
    } else {
        CompositeKind::PercentileAsinh
    }
}

// ---------------------------------------------------------------------------
// Flux planes
// ---------------------------------------------------------------------------

/// A plane stored in a slot is what the slot then holds, and the other
/// slots keep theirs.
pub proof fn lemma_store_then_read<T>(planes: Seq<Seq<T>>, index: int, plane: Seq<T>, other: int)
    requires
        0 <= index < planes.len(),
        0 <= other < planes.len(),
        other != index,
    ensures
        planes.update(index, plane)[index] == plane,
        planes.update(index, plane)[other] == planes[other],
        planes.update(index, plane).len() == planes.len(),
{
}

/// Why a flux plane could not be stored or shown.
#[derive(PartialEq, Eq, Structural, Clone, Copy, Debug)]
pub enum PlaneError {
    /// The plane's byte length is not `nx * ny * 4`.
    ByteLength,
    /// The plane index is past the number of filters of the current cube.
    IndexOutOfRange,
    /// No plane has been stored at that index.
    NotLoaded,
}

impl PlaneError {
    /// The message reported to the page.
    pub fn message(&self) -> (m: &'static str)
        ensures
            m@ == (match *self {
                PlaneError::ByteLength => "plane byte length != nx*ny*4"@,
                PlaneError::IndexOutOfRange => "plane index out of range"@,
                PlaneError::NotLoaded => "filter plane not loaded"@,
            }),
    {
        match self {
            PlaneError::ByteLength => "plane byte length != nx*ny*4",
            PlaneError::IndexOutOfRange => "plane index out of range",
            PlaneError::NotLoaded => "filter plane not loaded",
        }
    }
}

/// The flux planes of the current cube, one slot per filter; a slot is empty
/// until its plane is stored.
#[derive(Debug)]
pub struct PlaneCache<T> {
    nx: usize,
    ny: usize,
    planes: Vec<Vec<T>>,
}

impl<T> PlaneCache<T> {
    /// The image width of the current cube.
    pub closed spec fn width(&self) -> usize {
        self.nx
    }

    /// The image height of the current cube.
    pub closed spec fn height(&self) -> usize {
        self.ny
    }

    /// The planes, slot by slot.
    pub closed spec fn planes_view(&self) -> Seq<Seq<T>> {
        self.planes@.map_values(|p: Vec<T>| p@)
    }

    /// An empty cache of a `0 × 0` cube with no filters.
    pub fn new() -> (c: PlaneCache<T>)
        ensures
            c.width() == 0,
            c.height() == 0,
            c.planes_view() == Seq::<Seq<T>>::empty(),
    {
        let c = PlaneCache { nx: 0, ny: 0, planes: Vec::new() };
        proof {
            assert(c.planes_view() =~= Seq::<Seq<T>>::empty());
        }
        c
    }

    /// Starts a new `nx × ny` cube of `n_filters` filters, every slot empty.
    pub fn begin_cube(&mut self, nx: usize, ny: usize, n_filters: usize)
        ensures
            final(self).width() == nx,
            final(self).height() == ny,
            final(self).planes_view().len() == n_filters,
            forall|i: int|
                0 <= i < n_filters ==> #[trigger] final(self).planes_view()[i] == Seq::<T>::empty(),
    {
        let mut planes: Vec<Vec<T>> = Vec::new();
        let mut i: usize = 0;
        while i < n_filters
            invariant
                i <= n_filters,
                planes@.len() == i,
                forall|j: int| 0 <= j < i ==> (#[trigger] planes@[j])@ == Seq::<T>::empty(),
            decreases n_filters - i,
        {
            planes.push(Vec::new());
            i = i + 1;
        }
        self.nx = nx;
        self.ny = ny;
        self.planes = planes;
    }

    /// Whether a plane of `byte_len` bytes, as 32-bit floats of an `nx × ny`
    /// image, may be stored at slot `index`: the length is checked first.
    pub fn check_load(&self, index: usize, nx: usize, ny: usize, byte_len: usize) -> (r: Result<
        (),
        PlaneError,
    >)
        requires
            nx * ny * 4 <= usize::MAX,
        ensures
            r == (if byte_len != nx * ny * 4 {
                Err(PlaneError::ByteLength)
            } else if index >= self.planes_view().len() {
                Err(PlaneError::IndexOutOfRange)
            } else {
                Ok::<(), PlaneError>(())
            }),
    {
        proof {
            assert(nx * ny <= nx * ny * 4) by (nonlinear_arith)
                requires
                    nx >= 0,
                    ny >= 0,
            ;
            assert(0 <= nx * ny) by (nonlinear_arith)
                requires
                    nx >= 0,
                    ny >= 0,
            ;
        }
        let plane: usize = nx * ny;
        if byte_len != plane * 4 {
            return Err(PlaneError::ByteLength);
        }
        if index >= self.planes.len() {
            return Err(PlaneError::IndexOutOfRange);
        }
        Ok(())
    }

    /// The image width of the current cube.
    pub fn nx(&self) -> (r: usize)
        ensures
            r == self.width(),
    {
        self.nx
    }

    /// The image height of the current cube.
    pub fn ny(&self) -> (r: usize)
        ensures
            r == self.height(),
    {
        self.ny
    }

    /// Stores `plane` in slot `index`, replacing what it held.
    pub fn store(&mut self, index: usize, plane: Vec<T>)
        requires
            index < old(self).planes_view().len(),
        ensures
            final(self).width() == old(self).width(),
            final(self).height() == old(self).height(),
            final(self).planes_view() == old(self).planes_view().update(index as int, plane@),
    {
        let ghost before = self.planes@;
        let ghost p = plane@;
        self.planes.set(index, plane);
        proof {
            assert(self.planes@.map_values(|q: Vec<T>| q@) =~= before.map_values(|q: Vec<T>| q@).update(
                index as int,
                p,
            ));
        }
    }

    /// Loads a plane of `byte_len` bytes (32-bit floats of an `nx × ny`
    /// image), decoded as `plane`, into slot `index`: refused, leaving every
    /// slot as it was, when the length is not `nx * ny * 4` or the slot is
    /// past the current cube's filters; otherwise the slot holds `plane` and
    /// the other slots keep theirs.
    pub fn load_plane(&mut self, index: usize, nx: usize, ny: usize, byte_len: usize, plane: Vec<T>) -> (r:
        Result<(), PlaneError>)
        requires
            nx * ny * 4 <= usize::MAX,
        ensures
            r == (if byte_len != nx * ny * 4 {
                Err(PlaneError::ByteLength)
            } else if index >= old(self).planes_view().len() {
                Err(PlaneError::IndexOutOfRange)
            } else {
                Ok::<(), PlaneError>(())
            }),
            final(self).width() == old(self).width(),
            final(self).height() == old(self).height(),
            r is Err ==> final(self).planes_view() == old(self).planes_view(),
            r is Ok ==> final(self).planes_view() == old(self).planes_view().update(index as int, plane@),
    {
        match self.check_load(index, nx, ny, byte_len) {
            Err(e) => Err(e),
            Ok(()) => {
                self.store(index, plane);
                Ok(())
            },
        }
    }

    /// The plane in slot `index`, if one has been stored there.
    pub fn plane(&self, index: usize) -> (r: Result<&Vec<T>, PlaneError>)
        ensures
            match r {
                Ok(p) => index < self.planes_view().len() && self.planes_view()[index as int].len()
                    > 0 && p@ == self.planes_view()[index as int],
                Err(e) => e == PlaneError::NotLoaded && (index >= self.planes_view().len()
                    || self.planes_view()[index as int].len() == 0),
            },
    {
        if index < self.planes.len() && self.planes[index].len() > 0 {
            Ok(&self.planes[index])
        } else {
            Err(PlaneError::NotLoaded)
        }
    }
}

} // verus!
