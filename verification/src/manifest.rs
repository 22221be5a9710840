//! The NIRCam wavelength table and the default RGB filter picker.

use vstd::prelude::*;

use crate::text::str_eq;

verus! {

broadcast use vstd::string::group_string_axioms;

/// Central wavelength, in nanometres, of each NIRCam filter this viewer knows.
pub open spec fn nircam_nm(name: Seq<char>) -> Option<nat> {
    if name == "F070W"@ {
        Some(704nat)
    } else if name == "F090W"@ {
        Some(901nat)
    } else if name == "F115W"@ {
        Some(1154nat)
    } else if name == "F140M"@ {
        Some(1404nat)
    } else if name == "F150W"@ {
        Some(1501nat)
    } else if name == "F162M"@ {
        Some(1627nat)
    } else if name == "F182M"@ {
        Some(1845nat)
    } else if name == "F200W"@ {
        Some(1990nat)
    } else if name == "F210M"@ {
        Some(2093nat)
    } else if name == "F250M"@ {
        Some(2503nat)
    } else if name == "F277W"@ {
        Some(2786nat)
    } else if name == "F300M"@ {
        Some(2996nat)
    } else if name == "F335M"@ {
        Some(3365nat)
    } else if name == "F356W"@ {
        Some(3563nat)
    } else if name == "F360M"@ {
        Some(3621nat)
    } else if name == "F410M"@ {
        Some(4092nat)
    } else if name == "F430M"@ {
        Some(4280nat)
    } else if name == "F444W"@ {
        Some(4421nat)
    } else if name == "F460M"@ {
        Some(4624nat)
    } else if name == "F480M"@ {
        Some(4834nat)
    } else {
        None
    }
}

/// Central wavelength of a NIRCam filter in nanometres, or `None` for a name
/// outside the table.
pub fn wavelength_nm_of(name: &str) -> (r: Option<u32>)
    ensures
        r matches Some(w) ==> nircam_nm(name@) == Some(w as nat),
        r is None ==> nircam_nm(name@) is None,
{
    if str_eq(name, "F070W") {
        Some(704)
    } else if str_eq(name, "F090W") {
        Some(901)
    } else if str_eq(name, "F115W") {
        Some(1154)
    } else if str_eq(name, "F140M") {
        Some(1404)
    } else if str_eq(name, "F150W") {
        Some(1501)
    } else if str_eq(name, "F162M") {
        Some(1627)
    } else if str_eq(name, "F182M") {
        Some(1845)
    } else if str_eq(name, "F200W") {
        Some(1990)
    } else if str_eq(name, "F210M") {
        Some(2093)
    } else if str_eq(name, "F250M") {
        Some(2503)
    } else if str_eq(name, "F277W") {
        Some(2786)
    } else if str_eq(name, "F300M") {
        Some(2996)
    } else if str_eq(name, "F335M") {
        Some(3365)
    } else if str_eq(name, "F356W") {
        Some(3563)
    } else if str_eq(name, "F360M") {
        Some(3621)
    } else if str_eq(name, "F410M") {
        Some(4092)
    } else if str_eq(name, "F430M") {
        Some(4280)
    } else if str_eq(name, "F444W") {
        Some(4421)
    } else if str_eq(name, "F460M") {
        Some(4624)
    } else if str_eq(name, "F480M") {
        Some(4834)
    } else {
        None
    }
}


/// The default red, green and blue filter names for a cube, plus the paths of
/// the two RGB composite textures (filled in by the caller once written).
#[derive(Debug)]
pub struct RgbFilters {
    pub r: String,
    pub g: String,
    pub b: String,
    pub texture_percentile: String,
    pub texture_lupton: String,
}

/// The filter names as character sequences.
pub open spec fn names(filters: Seq<String>) -> Seq<Seq<char>> {
    filters.map_values(|s: String| s@)
}

/// Whether `name` has a table wavelength.
pub open spec fn is_known(name: Seq<char>) -> bool {
    nircam_nm(name) is Some
}

/// The table wavelength of a known filter.
pub open spec fn wl(name: Seq<char>) -> int {
    nircam_nm(name).unwrap() as int
}

/// How many of the names (with repeats) have a table wavelength.
pub open spec fn known_count(fs: Seq<Seq<char>>) -> nat
    decreases fs.len(),
{
    if fs.len() == 0 {
        0
    } else {
        known_count(fs.drop_last()) + if is_known(fs.last()) { 1nat } else { 0nat }
    }
}

/// `x` is one of the names and has the longest wavelength among the known ones.
pub open spec fn is_longest(fs: Seq<Seq<char>>, x: Seq<char>) -> bool {
    &&& fs.contains(x)
    &&& is_known(x)
    &&& forall|i: int| 0 <= i < fs.len() && is_known(#[trigger] fs[i]) ==> wl(fs[i]) <= wl(x)
}

/// `x` is one of the names and has the shortest wavelength among the known ones.
pub open spec fn is_shortest(fs: Seq<Seq<char>>, x: Seq<char>) -> bool {
    &&& fs.contains(x)
    &&& is_known(x)
    &&& forall|i: int| 0 <= i < fs.len() && is_known(#[trigger] fs[i]) ==> wl(x) <= wl(fs[i])
}

/// Twice the distance of a wavelength from the midpoint of `lo` and `hi`.
pub open spec fn mid_dist(w: int, lo: int, hi: int) -> int {
    if 2 * w >= lo + hi {
        2 * w - (lo + hi)
    } else {
        (lo + hi) - 2 * w
    }
}

/// The pairs of table wavelengths `lo < hi` whose midpoint, computed in
/// double precision from the wavelengths in micrometres, lies nearer to `hi`
/// than to `lo`, though in exact nanometres it lies half-way between them.
pub open spec fn extremes_tie_to_longer(lo: int, hi: int) -> bool {
    ||| lo == 704 && hi == 1501
    ||| lo == 704 && hi == 2786
    ||| lo == 704 && hi == 2996
    ||| lo == 704 && hi == 3563
    ||| lo == 704 && hi == 3621
    ||| lo == 901 && hi == 1501
    ||| lo == 901 && hi == 2786
    ||| lo == 901 && hi == 2996
    ||| lo == 901 && hi == 3563
    ||| lo == 901 && hi == 3621
    ||| lo == 1154 && hi == 1990
    ||| lo == 1154 && hi == 2996
    ||| lo == 1154 && hi == 3563
    ||| lo == 1154 && hi == 3621
    ||| lo == 1404 && hi == 1990
    ||| lo == 1404 && hi == 2996
    ||| lo == 1404 && hi == 3563
    ||| lo == 1404 && hi == 3621
    ||| lo == 1501 && hi == 1627
    ||| lo == 1501 && hi == 1845
    ||| lo == 1501 && hi == 4092
    ||| lo == 1501 && hi == 4280
    ||| lo == 1501 && hi == 4421
    ||| lo == 1501 && hi == 4624
    ||| lo == 1627 && hi == 2786
    ||| lo == 1627 && hi == 2996
    ||| lo == 1627 && hi == 3563
    ||| lo == 1627 && hi == 3621
    ||| lo == 1845 && hi == 2786
    ||| lo == 1845 && hi == 2996
    ||| lo == 1845 && hi == 3563
    ||| lo == 1845 && hi == 3621
    ||| lo == 1990 && hi == 2093
    ||| lo == 1990 && hi == 2503
    ||| lo == 1990 && hi == 3365
    ||| lo == 1990 && hi == 4092
    ||| lo == 1990 && hi == 4280
    ||| lo == 1990 && hi == 4421
    ||| lo == 1990 && hi == 4624
    ||| lo == 1990 && hi == 4834
    ||| lo == 2093 && hi == 2996
    ||| lo == 2093 && hi == 3563
    ||| lo == 2093 && hi == 3621
    ||| lo == 2503 && hi == 2996
    ||| lo == 2503 && hi == 3563
    ||| lo == 2503 && hi == 3621
    ||| lo == 2786 && hi == 4092
    ||| lo == 2786 && hi == 4280
    ||| lo == 2786 && hi == 4421
    ||| lo == 2786 && hi == 4624
    ||| lo == 2996 && hi == 3365
    ||| lo == 2996 && hi == 4834
    ||| lo == 3365 && hi == 3563
    ||| lo == 3365 && hi == 3621
    ||| lo == 3563 && hi == 4834
    ||| lo == 3621 && hi == 4834
    ||| lo == 4280 && hi == 4834
}

/// Of two wavelengths at the same distance from the midpoint of `lo` and
/// `hi`, `a` is picked over `b`: the shorter one, except between `lo` and `hi`
/// themselves, where the pairs above go to the longer one.
pub open spec fn picked_on_tie(a: int, b: int, lo: int, hi: int) -> bool {
    if extremes_tie_to_longer(lo, hi) && (a == lo && b == hi || a == hi && b == lo) {
        a == hi
    } else {
        a <= b
    }
}

/// `x` is the known name nearest to the midpoint of `lo` and `hi`, ties
/// settled by `picked_on_tie`.
pub open spec fn is_nearest_mid(fs: Seq<Seq<char>>, x: Seq<char>, lo: int, hi: int) -> bool {
    &&& fs.contains(x)
    &&& is_known(x)
    &&& forall|i: int|
        0 <= i < fs.len() && is_known(#[trigger] fs[i]) ==> {
            ||| mid_dist(wl(x), lo, hi) < mid_dist(wl(fs[i]), lo, hi)
            ||| (mid_dist(wl(x), lo, hi) == mid_dist(wl(fs[i]), lo, hi) && picked_on_tie(
                wl(x),
                wl(fs[i]),
                lo,
                hi,
            ))
        }
}

fn tie_to_longer(lo: u32, hi: u32) -> (r: bool)
    ensures
        r == extremes_tie_to_longer(lo as int, hi as int),
{
    (lo == 704 && hi == 1501)
    || (lo == 704 && hi == 2786)
    || (lo == 704 && hi == 2996)
    || (lo == 704 && hi == 3563)
    || (lo == 704 && hi == 3621)
    || (lo == 901 && hi == 1501)
    || (lo == 901 && hi == 2786)
    || (lo == 901 && hi == 2996)
    || (lo == 901 && hi == 3563)
    || (lo == 901 && hi == 3621)
    || (lo == 1154 && hi == 1990)
    || (lo == 1154 && hi == 2996)
    || (lo == 1154 && hi == 3563)
    || (lo == 1154 && hi == 3621)
    || (lo == 1404 && hi == 1990)
    || (lo == 1404 && hi == 2996)
    || (lo == 1404 && hi == 3563)
    || (lo == 1404 && hi == 3621)
    || (lo == 1501 && hi == 1627)
    || (lo == 1501 && hi == 1845)
    || (lo == 1501 && hi == 4092)
    || (lo == 1501 && hi == 4280)
    || (lo == 1501 && hi == 4421)
    || (lo == 1501 && hi == 4624)
    || (lo == 1627 && hi == 2786)
    || (lo == 1627 && hi == 2996)
    || (lo == 1627 && hi == 3563)
    || (lo == 1627 && hi == 3621)
    || (lo == 1845 && hi == 2786)
    || (lo == 1845 && hi == 2996)
    || (lo == 1845 && hi == 3563)
    || (lo == 1845 && hi == 3621)
    || (lo == 1990 && hi == 2093)
    || (lo == 1990 && hi == 2503)
    || (lo == 1990 && hi == 3365)
    || (lo == 1990 && hi == 4092)
    || (lo == 1990 && hi == 4280)
    || (lo == 1990 && hi == 4421)
    || (lo == 1990 && hi == 4624)
    || (lo == 1990 && hi == 4834)
    || (lo == 2093 && hi == 2996)
    || (lo == 2093 && hi == 3563)
    || (lo == 2093 && hi == 3621)
    || (lo == 2503 && hi == 2996)
    || (lo == 2503 && hi == 3563)
    || (lo == 2503 && hi == 3621)
    || (lo == 2786 && hi == 4092)
    || (lo == 2786 && hi == 4280)
    || (lo == 2786 && hi == 4421)
    || (lo == 2786 && hi == 4624)
    || (lo == 2996 && hi == 3365)
    || (lo == 2996 && hi == 4834)
    || (lo == 3365 && hi == 3563)
    || (lo == 3365 && hi == 3621)
    || (lo == 3563 && hi == 4834)
    || (lo == 3621 && hi == 4834)
    || (lo == 4280 && hi == 4834)
}

/// The last, middle (index `len / 2`) and first names, empty when there are none.
pub open spec fn position_pick(fs: Seq<Seq<char>>) -> (Seq<char>, Seq<char>, Seq<char>) {
    if fs.len() == 0 {
        (Seq::empty(), Seq::empty(), Seq::empty())
    } else {
        (fs.last(), fs[(fs.len() / 2) as int], fs[0])
    }
}

/// With fewer than three known names, each pick not taken by name is a
/// filter by position: R the last of the list, G the one at index
/// `len / 2`, B the first.
pub proof fn lemma_position_fallback(fs: Seq<Seq<char>>, r: Seq<char>, g: Seq<char>, b: Seq<char>)
    requires
        rgb_rule(fs, r, g, b),
        known_count(fs) < 3,
        fs.len() > 0,
    ensures
        !fs.contains("F200W"@) ==> r == fs[fs.len() - 1],
        !fs.contains("F115W"@) ==> g == fs[(fs.len() / 2) as int],
        !fs.contains("F090W"@) ==> b == fs[0],
{
}

/// The names that have a table wavelength.
pub open spec fn known_names(fs: Seq<Seq<char>>) -> Set<Seq<char>> {
    Set::new(|x: Seq<char>| fs.contains(x) && is_known(x))
}

/// Distinct filters of the table have distinct wavelengths.
proof fn lemma_wl_injective(x: Seq<char>, y: Seq<char>)
    requires
        is_known(x),
        is_known(y),
        wl(x) == wl(y),
    ensures
        x == y,
{
}

proof fn lemma_none_known(fs: Seq<Seq<char>>)
    requires
        known_count(fs) == 0,
    ensures
        forall|i: int| 0 <= i < fs.len() ==> !is_known(#[trigger] fs[i]),
    decreases fs.len(),
{
    if fs.len() > 0 {
        let init = fs.drop_last();
        lemma_none_known(init);
        assert forall|i: int| 0 <= i < fs.len() implies !is_known(#[trigger] fs[i]) by {
            if i < fs.len() - 1 {
                assert(fs[i] == init[i]);
            }
        }
    }
}

/// Names with a wavelength have a shortest and a longest one.
proof fn lemma_extremes_exist(fs: Seq<Seq<char>>) -> (lh: (Seq<char>, Seq<char>))
    requires
        known_count(fs) > 0,
    ensures
        is_shortest(fs, lh.0),
        is_longest(fs, lh.1),
    decreases fs.len(),
{
    let init = fs.drop_last();
    let x = fs.last();
    let n = fs.len() as int;
    assert(fs.contains(x)) by {
        assert(fs[n - 1] == x);
    }
    if known_count(init) == 0 {
        lemma_none_known(init);
        assert(is_known(x));
        assert forall|i: int| 0 <= i < fs.len() && is_known(#[trigger] fs[i]) implies wl(fs[i]) == wl(x) by {
            if i < n - 1 {
                assert(fs[i] == init[i]);
            }
        }
        (x, x)
    } else {
        let (lo, hi) = lemma_extremes_exist(init);
        assert(fs.contains(lo)) by {
            let j = choose|j: int| 0 <= j < init.len() && init[j] == lo;
            assert(fs[j] == lo);
        }
        assert(fs.contains(hi)) by {
            let j = choose|j: int| 0 <= j < init.len() && init[j] == hi;
            assert(fs[j] == hi);
        }
        let lo2 = if is_known(x) && wl(x) < wl(lo) { x } else { lo };
        let hi2 = if is_known(x) && wl(x) > wl(hi) { x } else { hi };
        assert forall|i: int| 0 <= i < fs.len() && is_known(#[trigger] fs[i]) implies wl(lo2) <= wl(fs[i])
            && wl(fs[i]) <= wl(hi2) by {
            if i < n - 1 {
                assert(fs[i] == init[i]);
            }
        }
        (lo2, hi2)
    }
}

/// Being the shortest or longest depends only on the known names.
proof fn lemma_extremes_by_known_names(fs1: Seq<Seq<char>>, fs2: Seq<Seq<char>>, x: Seq<char>)
    requires
        known_names(fs1) == known_names(fs2),
    ensures
        is_shortest(fs1, x) ==> is_shortest(fs2, x),
        is_longest(fs1, x) ==> is_longest(fs2, x),
{
    if is_shortest(fs1, x) || is_longest(fs1, x) {
        assert(known_names(fs1).contains(x));
        assert(known_names(fs2).contains(x));
        assert forall|i: int| 0 <= i < fs2.len() && is_known(#[trigger] fs2[i]) implies fs1.contains(
            fs2[i],
        ) by {
            assert(fs2.contains(fs2[i]));
            assert(known_names(fs2).contains(fs2[i]));
        }
    }
}

/// The default picks, when three or more names have a wavelength, depend only
/// on which names have one: reordering the filters, repeating them, or adding
/// names outside the table leaves R, G and B as they are.
pub proof fn lemma_picks_depend_only_on_known_names(
    fs1: Seq<Seq<char>>,
    fs2: Seq<Seq<char>>,
    r1: Seq<char>,
    g1: Seq<char>,
    b1: Seq<char>,
    r2: Seq<char>,
    g2: Seq<char>,
    b2: Seq<char>,
)
    requires
        rgb_rule(fs1, r1, g1, b1),
        rgb_rule(fs2, r2, g2, b2),
        known_names(fs1) == known_names(fs2),
        known_count(fs1) >= 3,
        known_count(fs2) >= 3,
    ensures
        r1 == r2,
        g1 == g2,
        b1 == b2,
{
    reveal_strlit("F070W");
    reveal_strlit("F090W");
    reveal_strlit("F115W");
    reveal_strlit("F140M");
    reveal_strlit("F150W");
    reveal_strlit("F162M");
    reveal_strlit("F182M");
    reveal_strlit("F200W");
    assert(is_known("F200W"@));
    assert(is_known("F115W"@));
    assert(is_known("F090W"@));
    assert forall|n: Seq<char>| is_known(n) implies (fs1.contains(n) <==> fs2.contains(n)) by {
        if fs1.contains(n) {
            assert(known_names(fs1).contains(n));
            assert(known_names(fs2).contains(n));
        }
        if fs2.contains(n) {
            assert(known_names(fs2).contains(n));
            assert(known_names(fs1).contains(n));
        }
    }
    assert(fs1.contains("F200W"@) == fs2.contains("F200W"@));
    assert(fs1.contains("F115W"@) == fs2.contains("F115W"@));
    assert(fs1.contains("F090W"@) == fs2.contains("F090W"@));
    if !fs1.contains("F200W"@) {
        lemma_extremes_by_known_names(fs1, fs2, r1);
        lemma_extremes_by_known_names(fs2, fs1, r2);
        let i = choose|i: int| 0 <= i < fs2.len() && fs2[i] == r1;
        let j = choose|j: int| 0 <= j < fs1.len() && fs1[j] == r2;
        assert(is_known(fs2[i]) && is_known(fs1[j]));
        lemma_wl_injective(r1, r2);
    }
    if !fs1.contains("F090W"@) {
        lemma_extremes_by_known_names(fs1, fs2, b1);
        lemma_extremes_by_known_names(fs2, fs1, b2);
        let i = choose|i: int| 0 <= i < fs2.len() && fs2[i] == b1;
        let j = choose|j: int| 0 <= j < fs1.len() && fs1[j] == b2;
        assert(is_known(fs2[i]) && is_known(fs1[j]));
        lemma_wl_injective(b1, b2);
    }
    if !fs1.contains("F115W"@) {
        let (lo, hi) = lemma_extremes_exist(fs1);
        lemma_extremes_by_known_names(fs1, fs2, lo);
        lemma_extremes_by_known_names(fs1, fs2, hi);
        assert(is_nearest_mid(fs1, g1, wl(lo), wl(hi)));
        assert(is_nearest_mid(fs2, g2, wl(lo), wl(hi)));
        assert(fs2.contains(g1));
        assert(fs1.contains(g2));
        let i = choose|i: int| 0 <= i < fs2.len() && fs2[i] == g1;
        let j = choose|j: int| 0 <= j < fs1.len() && fs1[j] == g2;
        assert(is_known(fs2[i]) && is_known(fs1[j]));
        lemma_wl_injective(g1, g2);
    }
}

fn contains_name(filters: &[String], want: &str) -> (r: bool)
    ensures
        r == names(filters@).contains(want@),
{
    let mut i: usize = 0;
    while i < filters.len()
        invariant
            i <= filters.len(),
            forall|j: int| 0 <= j < i ==> filters@[j]@ != want@,
        decreases filters.len() - i,
    {
        if str_eq(filters[i].as_str(), want) {
            proof {
                assert(names(filters@)[i as int] == want@);
            }
            return true;
        }
        i = i + 1;
    }
    proof {
        if names(filters@).contains(want@) {
            let k = choose|k: int| 0 <= k < names(filters@).len() && names(filters@)[k] == want@;
            assert(filters@[k]@ == want@);
        }
    }
    false
}


/// The rule for the default picks `(r, g, b)` among the names `fs`: the named
/// F200W/F115W/F090W where present; otherwise, with three or more known
/// names, R the longest known wavelength, B the shortest and G the one
/// nearest their midpoint (ties settled by `picked_on_tie`); with fewer, R
/// the last name, G the middle one and B the first.
pub open spec fn rgb_rule(fs: Seq<Seq<char>>, r: Seq<char>, g: Seq<char>, b: Seq<char>) -> bool {
    &&& fs.contains("F200W"@) ==> r == "F200W"@
    &&& fs.contains("F115W"@) ==> g == "F115W"@
    &&& fs.contains("F090W"@) ==> b == "F090W"@
    &&& known_count(fs) >= 3 ==> {
        &&& !fs.contains("F200W"@) ==> is_longest(fs, r)
        &&& !fs.contains("F090W"@) ==> is_shortest(fs, b)
        &&& !fs.contains("F115W"@) ==> forall|lo: Seq<char>, hi: Seq<char>|
            is_shortest(fs, lo) && is_longest(fs, hi) ==> #[trigger] is_nearest_mid(
                fs,
                g,
                wl(lo),
                wl(hi),
            )
    }
    &&& known_count(fs) < 3 ==> {
        &&& !fs.contains("F200W"@) ==> r == position_pick(fs).0
        &&& !fs.contains("F115W"@) ==> g == position_pick(fs).1
        &&& !fs.contains("F090W"@) ==> b == position_pick(fs).2
    }
}

/// Picks the default R/G/B filter names by wavelength rank: the named
/// F200W/F115W/F090W where present; otherwise R is the longest known
/// wavelength, B the shortest and G the one nearest their midpoint. Of two
/// wavelengths equally near the midpoint the shorter is picked, except for
/// the pairs of extremes whose midpoint, in double precision, falls nearer
/// the longer one. With fewer than three known filters the missing
/// picks fall back to position: R the last name, G the middle one, B the
/// first.
pub fn default_rgb(filters: &[String]) -> (rgb: RgbFilters)
    ensures
        rgb_rule(names(filters@), rgb.r@, rgb.g@, rgb.b@),
        filters@.len() > 0 ==> names(filters@).contains(rgb.r@) && names(filters@).contains(rgb.g@)
            && names(filters@).contains(rgb.b@),
        rgb.texture_percentile@ == Seq::<char>::empty(),
        rgb.texture_lupton@ == Seq::<char>::empty(),
{
    let ghost fs = names(filters@);
    let has_r = contains_name(filters, "F200W");
    let has_g = contains_name(filters, "F115W");
    let has_b = contains_name(filters, "F090W");

    // Scan the known filters for the shortest and longest wavelengths.
    let n = filters.len();
    let mut count: usize = 0;
    let mut lo_i: usize = 0;
    let mut hi_i: usize = 0;
    let mut lo_w: u32 = 0;
    let mut hi_w: u32 = 0;
    let mut i: usize = 0;
    while i < n
        invariant
            n == filters@.len(),
            fs == names(filters@),
            i <= n,
            count == known_count(fs.take(i as int)),
            count <= i,
            count == 0 ==> forall|j: int| 0 <= j < i ==> !is_known(#[trigger] fs[j]),
            count > 0 ==> {
                &&& lo_i < i && hi_i < i
                &&& is_known(fs[lo_i as int]) && wl(fs[lo_i as int]) == lo_w
                &&& is_known(fs[hi_i as int]) && wl(fs[hi_i as int]) == hi_w
                &&& forall|j: int| 0 <= j < i && is_known(#[trigger] fs[j]) ==> lo_w <= wl(fs[j]) <= hi_w
            },
        decreases n - i,
    {
        proof {
            assert(fs.take(i + 1).drop_last() =~= fs.take(i as int));
        }
        match wavelength_nm_of(filters[i].as_str()) {
            Some(w) => {
                if count == 0 || w < lo_w {
                    lo_i = i;
                    lo_w = w;
                }
                if count == 0 || w > hi_w {
                    hi_i = i;
                    hi_w = w;
                }
                count = count + 1;
            },
            None => {},
        }
        i = i + 1;
    }
    proof {
        assert(fs.take(n as int) =~= fs);
    }

    let r: String;
    let g: String;
    let b: String;
    if count >= 3 {
        // The known filter nearest the wavelength midpoint, shorter on a tie.
        let sum: i64 = lo_w as i64 + hi_w as i64;
        let mut best_i: usize = lo_i;
        let mut best_w: i64 = lo_w as i64;
        let mut best_d: i64 = if 2 * best_w >= sum { 2 * best_w - sum } else { sum - 2 * best_w };
        let longer_wins = tie_to_longer(lo_w, hi_w);
        let mut k: usize = 0;
        while k < n
            invariant
                n == filters@.len(),
                fs == names(filters@),
                k <= n,
                count > 0,
                lo_i < n && hi_i < n,
                is_known(fs[lo_i as int]) && wl(fs[lo_i as int]) == lo_w,
                is_known(fs[hi_i as int]) && wl(fs[hi_i as int]) == hi_w,
                forall|j: int| 0 <= j < n && is_known(#[trigger] fs[j]) ==> lo_w <= wl(fs[j]) <= hi_w,
                sum == lo_w + hi_w,
                best_i < n,
                is_known(fs[best_i as int]),
                wl(fs[best_i as int]) == best_w,
                best_d == mid_dist(best_w as int, lo_w as int, hi_w as int),
                0 <= best_w <= 5000,
                0 <= sum <= 10000,
                longer_wins == extremes_tie_to_longer(lo_w as int, hi_w as int),
                forall|j: int|
                    0 <= j < k && is_known(#[trigger] fs[j]) ==> {
                        ||| best_d < mid_dist(wl(fs[j]), lo_w as int, hi_w as int)
                        ||| (best_d == mid_dist(wl(fs[j]), lo_w as int, hi_w as int) && picked_on_tie(
                            best_w as int,
                            wl(fs[j]),
                            lo_w as int,
                            hi_w as int,
                        ))
                    },
            decreases n - k,
        {
            match wavelength_nm_of(filters[k].as_str()) {
                Some(w) => {
                    let wi = w as i64;
                    let d: i64 = if 2 * wi >= sum { 2 * wi - sum } else { sum - 2 * wi };
                    let on_tie = if longer_wins && (wi == lo_w as i64 && best_w == hi_w as i64
                        || wi == hi_w as i64 && best_w == lo_w as i64) {
                        wi == hi_w as i64
                    } else {
                        wi <= best_w
                    };
                    if d < best_d || (d == best_d && on_tie) {
                        best_i = k;
                        best_w = wi;
                        best_d = d;
                    }
                },
                None => {},
            }
            k = k + 1;
        }
        r = if has_r { "F200W".to_string() } else { filters[hi_i].clone() };
        g = if has_g { "F115W".to_string() } else { filters[best_i].clone() };
        b = if has_b { "F090W".to_string() } else { filters[lo_i].clone() };
        proof {
            assert(fs[hi_i as int] == filters@[hi_i as int]@);
            assert(fs.contains(fs[hi_i as int]));
            assert(fs.contains(fs[lo_i as int]));
            assert(fs.contains(fs[best_i as int]));
            assert forall|lo: Seq<char>, hi: Seq<char>|
                is_shortest(fs, lo) && is_longest(fs, hi) implies #[trigger] is_nearest_mid(
                fs,
                fs[best_i as int],
                wl(lo),
                wl(hi),
            ) by {
                assert(wl(lo) <= lo_w);
                assert(hi_w <= wl(hi));
            }
        }
    } else {
        let last = if n > 0 { filters[n - 1].clone() } else { String::new() };
        let mid = if n > 0 { filters[n / 2].clone() } else { String::new() };
        let first = if n > 0 { filters[0].clone() } else { String::new() };
        r = if has_r { "F200W".to_string() } else { last };
        g = if has_g { "F115W".to_string() } else { mid };
        b = if has_b { "F090W".to_string() } else { first };
        proof {
            if n > 0 {
                assert(fs[n - 1] == filters@[n - 1]@);
                assert(fs[(n / 2) as int] == filters@[(n / 2) as int]@);
                assert(fs[0] == filters@[0]@);
                assert(fs.contains(fs[n - 1]));
                assert(fs.contains(fs[(n / 2) as int]));
                assert(fs.contains(fs[0]));
            }
        }
    }
    RgbFilters { r, g, b, texture_percentile: String::new(), texture_lupton: String::new() }
}

} // verus!
