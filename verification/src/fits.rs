//! The layout of a NIRCam datacube's primary HDU: its three axis lengths and
//! the `FILTERn` names, read from the FITS header, and the check that the
//! data array has one value per voxel.

use fitrs::Hdu;
use vstd::prelude::*;

use crate::text::{all_digits, chars_of, digits_value, is_digit, digit_value, string_from_chars, trim, trim_chars};

verus! {

/// A FITS header-data unit of the `fitrs` crate.
#[verifier::external_type_specification]
#[verifier::external_body]
pub struct ExHdu(Hdu);

/// Why a cube could not be read.
#[derive(Debug)]
pub enum FitsError {
    /// The file could not be opened (produced where the file is opened).
    Open { path: String, reason: String },
    NoPrimaryHdu,
    /// A header key is missing or its value is not a non-negative integer.
    MissingInt(&'static str),
    /// A celestial WCS keyword is missing (produced where the WCS is read).
    MissingWcs(&'static str),
    /// Fewer `FILTERn` names than `NAXIS3` planes.
    FilterCount { expected: usize, found: usize },
    /// The data array is not 64-bit floating point (produced where it is read).
    NotF64Cube,
    /// The data array's length differs from `nx × ny × n_filters`.
    ShapeMismatch { len: usize, nx: usize, ny: usize, n_filters: usize },
}

/// A header card's value as the cube reader sees it: character strings and
/// integers keep their value; logical, real and complex values are `Other`.
#[derive(Debug)]
pub enum HeaderCard {
    Text(String),
    Integer(i32),
    Other,
}

/// A header card's value with its text as a character sequence.
pub ghost enum CardValue {
    Text(Seq<char>),
    Integer(i32),
    Other,
}

impl View for HeaderCard {
    type V = CardValue;

    open spec fn view(&self) -> CardValue {
        match self {
            HeaderCard::Text(s) => CardValue::Text(s@),
            HeaderCard::Integer(n) => CardValue::Integer(*n),
            HeaderCard::Other => CardValue::Other,
        }
    }
}

/// An optional card value, viewed.
pub open spec fn card_view(c: Option<HeaderCard>) -> Option<CardValue> {
    match c {
        Some(v) => Some(v@),
        None => None,
    }
}

/// The cards of an HDU's header, in order: each card's key and its value, if
/// it has one.
pub uninterp spec fn hdu_header(hdu: Hdu) -> Seq<(Seq<char>, Option<CardValue>)>;

/// The value of the first card with key `key`; `None` when no card has that
/// key or the first such card has no value.
pub open spec fn first_card(cards: Seq<(Seq<char>, Option<CardValue>)>, key: Seq<char>) -> Option<
    CardValue,
>
    decreases cards.len(),
{
    if cards.len() == 0 {
        None
    } else if cards[0].0 == key {
        cards[0].1
    } else {
        first_card(cards.drop_first(), key)
    }
}

/// `fitrs::Hdu::value`: the value of the first header card whose key equals
/// `key` (a linear search of the header in order), `None` when there is no
/// such card or it has no value. The value is converted variant for variant:
/// strings and integers keep their content, the other kinds become `Other`.
#[verifier::external_body]
fn header_value(hdu: &Hdu, key: &str) -> (r: Option<HeaderCard>)
    ensures
        card_view(r) == first_card(hdu_header(*hdu), key@),
{
    match hdu.value(key) {
        Some(fitrs::HeaderValue::CharacterString(s)) => Some(HeaderCard::Text(s.clone())),
        Some(fitrs::HeaderValue::IntegerNumber(n)) => Some(HeaderCard::Integer(*n)),
        Some(fitrs::HeaderValue::Logical(_)) => Some(HeaderCard::Other),
        Some(fitrs::HeaderValue::RealFloatingNumber(_)) => Some(HeaderCard::Other),
        Some(fitrs::HeaderValue::ComplexIntegerNumber(_, _)) => Some(HeaderCard::Other),
        Some(fitrs::HeaderValue::ComplexFloatingNumber(_, _)) => Some(HeaderCard::Other),
        None => None,
    }
}

/// The non-negative integer value of header key `key`, if it has one.
pub open spec fn header_int_value(hdu: Hdu, key: Seq<char>) -> Option<int> {
    match first_card(hdu_header(hdu), key) {
        Some(CardValue::Integer(n)) => if n >= 0 {
            Some(n as int)
        } else {
            None
        },
        _ => None,
    }
}

/// Reads header key `key` as a non-negative integer.
pub fn header_int(hdu: &Hdu, key: &'static str) -> (r: Result<usize, FitsError>)
    ensures
        match r {
            Ok(n) => header_int_value(*hdu, key@) == Some(n as int),
            Err(e) => header_int_value(*hdu, key@) is None && e == FitsError::MissingInt(key),
        },
{
    match header_value(hdu, key) {
        Some(HeaderCard::Integer(n)) => {
            if n >= 0 {
                Ok(n as usize)
            } else {
                Err(FitsError::MissingInt(key))
            }
        },
        _ => Err(FitsError::MissingInt(key)),
    }
}

// ---------------------------------------------------------------------------
// Filter names
// ---------------------------------------------------------------------------

pub open spec fn digit_char(d: int) -> char {
    if d == 0 {
        '0'
    } else if d == 1 {
        '1'
    } else if d == 2 {
        '2'
    } else if d == 3 {
        '3'
    } else if d == 4 {
        '4'
    } else if d == 5 {
        '5'
    } else if d == 6 {
        '6'
    } else if d == 7 {
        '7'
    } else if d == 8 {
        '8'
    } else {
        '9'
    }
}

/// The decimal digits of `n`, without leading zeros.
pub open spec fn decimal(n: nat) -> Seq<char>
    decreases n,
{
    if n < 10 {
        seq![digit_char(n as int)]
    } else {
        decimal(n / 10).push(digit_char((n % 10) as int))
    }
}

/// The header key naming plane `i`: `FILTER` followed by `i` in decimal.
pub open spec fn filter_key(i: nat) -> Seq<char> {
    seq!['F', 'I', 'L', 'T', 'E', 'R'] + decimal(i)
}

/// The decimal numeral of `n` is a run of digits, without a leading zero
/// unless it is `0` itself, whose base-ten value is `n`.
pub proof fn lemma_decimal_reads_back(n: nat)
    ensures
        decimal(n).len() > 0,
        all_digits(decimal(n)),
        digits_value(decimal(n)) == n,
        n >= 10 ==> decimal(n)[0] != '0',
    decreases n,
{
    if n >= 10 {
        lemma_decimal_reads_back(n / 10);
        let d = decimal(n / 10);
        let s = decimal(n);
        assert(s.drop_last() =~= d);
        assert(s[0] == d[0]);
        assert(s.last() == digit_char((n % 10) as int));
        assert(digit_value(digit_char((n % 10) as int)) == n % 10);
        assert(digits_value(s) == 10 * digits_value(d) + digit_value(s.last()));
        assert(10 * (n / 10) + n % 10 == n);
        assert forall|i: int| 0 <= i < s.len() implies is_digit(#[trigger] s[i]) by {
            if i < d.len() {
                assert(s[i] == d[i]);
            }
        }
    } else {
        assert(digit_value(digit_char(n as int)) == n);
        assert(decimal(n).drop_last() =~= Seq::<char>::empty());
        assert(digits_value(Seq::<char>::empty()) == 0);
        assert(decimal(n).last() == digit_char(n as int));
        assert(digits_value(decimal(n)) == 10 * digits_value(decimal(n).drop_last()) + digit_value(
            decimal(n).last(),
        ));
    }
}

/// The header key of plane `i` is `FILTER` followed by the decimal numeral of
/// `i`: its characters after `FILTER` are digits whose value is `i`.
pub proof fn lemma_filter_key_names_its_plane(i: nat)
    ensures
        filter_key(i).take(6) == seq!['F', 'I', 'L', 'T', 'E', 'R'],
        all_digits(filter_key(i).skip(6)),
        digits_value(filter_key(i).skip(6)) == i,
{
    lemma_decimal_reads_back(i);
    assert(filter_key(i).take(6) =~= seq!['F', 'I', 'L', 'T', 'E', 'R']);
    assert(filter_key(i).skip(6) =~= decimal(i));
}

fn digit(d: usize) -> (c: char)
    requires
        d < 10,
    ensures
        c == digit_char(d as int),
{
    if d == 0 {
        '0'
    } else if d == 1 {
        '1'
    } else if d == 2 {
        '2'
    } else if d == 3 {
        '3'
    } else if d == 4 {
        '4'
    } else if d == 5 {
        '5'
    } else if d == 6 {
        '6'
    } else if d == 7 {
        '7'
    } else if d == 8 {
        '8'
    } else {
        '9'
    }
}

fn decimal_chars(n: usize) -> (r: Vec<char>)
    ensures
        r@ == decimal(n as nat),
    decreases n,
{
    if n < 10 {
        let mut r: Vec<char> = Vec::new();
        r.push(digit(n));
        proof {
            assert(r@ =~= decimal(n as nat));
        }
        r
    } else {
        let mut r = decimal_chars(n / 10);
        r.push(digit(n % 10));
        r
    }
}

fn filter_key_string(i: usize) -> (r: String)
    ensures
        r@ == filter_key(i as nat),
{
    let mut cs: Vec<char> = Vec::new();
    cs.push('F');
    cs.push('I');
    cs.push('L');
    cs.push('T');
    cs.push('E');
    cs.push('R');
    let ds = decimal_chars(i);
    let mut k: usize = 0;
    while k < ds.len()
        invariant
            k <= ds@.len(),
            cs@ == seq!['F', 'I', 'L', 'T', 'E', 'R'] + ds@.take(k as int),
        decreases ds.len() - k,
    {
        cs.push(ds[k]);
        k = k + 1;
        proof {
            assert(cs@ =~= seq!['F', 'I', 'L', 'T', 'E', 'R'] + ds@.take(k as int));
        }
    }
    proof {
        assert(ds@.take(ds@.len() as int) =~= ds@);
    }
    string_from_chars(&cs)
}

/// The trimmed name of plane `i`, when its `FILTERi` card holds a string.
pub open spec fn filter_name(hdu: Hdu, i: nat) -> Option<Seq<char>> {
    match first_card(hdu_header(hdu), filter_key(i)) {
        Some(CardValue::Text(s)) => Some(trim(s)),
        _ => None,
    }
}

/// How many of the planes `i..=n`, counted from `i` on, have a name before
/// the first one that has none.
pub open spec fn named_run(hdu: Hdu, i: nat, n: nat) -> nat
    decreases n + 1 - i,
{
    if i > n || filter_name(hdu, i) is None {
        0
    } else {
        1 + named_run(hdu, i + 1, n)
    }
}

/// Reads the names `FILTER1 … FILTERn` (trimmed), stopping at the first card
/// that is missing or not a string; fewer than `n` names is an error.
pub fn read_filter_names(hdu: &Hdu, n_filters: usize) -> (r: Result<Vec<String>, FitsError>)
    ensures
        match r {
            Ok(names) => named_run(*hdu, 1, n_filters as nat) == n_filters && names@.len() == n_filters
                && forall|j: int| 0 <= j < n_filters ==> Some(#[trigger] names@[j]@) == filter_name(
                    *hdu,
                    (j + 1) as nat,
                ),
            Err(e) => named_run(*hdu, 1, n_filters as nat) < n_filters && e == FitsError::FilterCount {
                expected: n_filters,
                found: named_run(*hdu, 1, n_filters as nat) as usize,
            },
        },
{
    let mut filters: Vec<String> = Vec::new();
    let mut stopped = false;
    while filters.len() < n_filters && !stopped
        invariant
            filters@.len() <= n_filters,
            forall|j: int| 0 <= j < filters@.len() ==> Some(#[trigger] filters@[j]@) == filter_name(
                *hdu,
                (j + 1) as nat,
            ),
            !stopped ==> named_run(*hdu, 1, n_filters as nat) == filters@.len() + named_run(
                *hdu,
                (filters@.len() + 1) as nat,
                n_filters as nat,
            ),
            stopped ==> named_run(*hdu, 1, n_filters as nat) == filters@.len() && filters@.len()
                < n_filters,
        decreases n_filters - filters@.len(), if stopped { 0int } else { 1int },
    {
        let i = filters.len() + 1;
        let key = filter_key_string(i);
        match header_value(hdu, key.as_str()) {
            Some(HeaderCard::Text(s)) => {
                let t = trim_chars(&chars_of(s.as_str()));
                filters.push(string_from_chars(&t));
                if i == n_filters {
                    proof {
                        assert(named_run(*hdu, (i + 1) as nat, n_filters as nat) == 0);
                    }
                }
            },
            _ => {
                stopped = true;
            },
        }
    }
    if stopped {
        Err(FitsError::FilterCount { expected: n_filters, found: filters.len() })
    } else {
        Ok(filters)
    }
}

// ---------------------------------------------------------------------------
// Cube layout
// ---------------------------------------------------------------------------

/// The dimensions and filter names of a cube.
#[derive(Debug)]
pub struct CubeLayout {
    pub nx: usize,
    pub ny: usize,
    pub filters: Vec<String>,
}

/// Reads the cube layout from the primary HDU's header: `NAXIS1`, `NAXIS2`
/// and `NAXIS3` in that order, then the `NAXIS3` filter names.
pub fn read_cube_layout(hdu: &Hdu) -> (r: Result<CubeLayout, FitsError>)
    ensures
        match r {
            Ok(c) => {
                &&& header_int_value(*hdu, "NAXIS1"@) == Some(c.nx as int)
                &&& header_int_value(*hdu, "NAXIS2"@) == Some(c.ny as int)
                &&& header_int_value(*hdu, "NAXIS3"@) == Some(c.filters@.len() as int)
                &&& forall|j: int| 0 <= j < c.filters@.len() ==> Some(#[trigger] c.filters@[j]@)
                    == filter_name(*hdu, (j + 1) as nat)
            },
            Err(e) => {
                ||| header_int_value(*hdu, "NAXIS1"@) is None && e == FitsError::MissingInt("NAXIS1")
                ||| header_int_value(*hdu, "NAXIS1"@) is Some && header_int_value(*hdu, "NAXIS2"@) is None
                    && e == FitsError::MissingInt("NAXIS2")
                ||| header_int_value(*hdu, "NAXIS1"@) is Some && header_int_value(*hdu, "NAXIS2"@) is Some
                    && header_int_value(*hdu, "NAXIS3"@) is None && e == FitsError::MissingInt("NAXIS3")
                ||| header_int_value(*hdu, "NAXIS1"@) is Some && header_int_value(*hdu, "NAXIS2"@) is Some
                    && (header_int_value(*hdu, "NAXIS3"@) matches Some(n) && named_run(*hdu, 1, n as nat)
                    < n && e == (FitsError::FilterCount {
                    expected: n as usize,
                    found: named_run(*hdu, 1, n as nat) as usize,
                }))
            },
        },
{
    let nx = header_int(hdu, "NAXIS1")?;
    let ny = header_int(hdu, "NAXIS2")?;
    let n_filters = header_int(hdu, "NAXIS3")?;
    let filters = read_filter_names(hdu, n_filters)?;
    Ok(CubeLayout { nx, ny, filters })
}

/// Checks that a data array of `len` values fills an `nx × ny × n_filters`
/// cube exactly.
pub fn check_shape(len: usize, nx: usize, ny: usize, n_filters: usize) -> (r: Result<(), FitsError>)
    requires
        nx * ny * n_filters <= usize::MAX,
    ensures
        r is Ok <==> len == nx * ny * n_filters,
        r is Err ==> r == Err::<(), FitsError>(FitsError::ShapeMismatch { len, nx, ny, n_filters }),
{
    proof {
        assert(nx * ny <= nx * ny * n_filters || n_filters == 0) by (nonlinear_arith)
            requires
                n_filters >= 0,
                nx * ny >= 0,
        ;
        assert(0 <= nx * ny) by (nonlinear_arith)
            requires
                nx >= 0,
                ny >= 0,
        ;
    }
    let plane: usize = if n_filters == 0 { 0 } else { nx * ny };
    let expected: usize = if n_filters == 0 { 0 } else { plane * n_filters };
    proof {
        if n_filters == 0 {
            assert(nx * ny * n_filters == 0) by (nonlinear_arith)
                requires
                    n_filters == 0,
            ;
        }
    }
    if len != expected {
        return Err(FitsError::ShapeMismatch { len, nx, ny, n_filters });
    }
    Ok(())
}

// ---------------------------------------------------------------------------
// The cube
// ---------------------------------------------------------------------------

/// A datacube: `n_filters` planes of `ny × nx` values, flat and row-major
/// (`data[f*nx*ny + y*nx + x]`), with the filter names.
#[derive(Debug)]
pub struct Cube<T> {
    nx: usize,
    ny: usize,
    filters: Vec<String>,
    data: Vec<T>,
}

impl<T> Cube<T> {
    pub closed spec fn width(&self) -> usize {
        self.nx
    }

    pub closed spec fn height(&self) -> usize {
        self.ny
    }

    /// The filter names, one per plane.
    pub closed spec fn filter_names(&self) -> Seq<Seq<char>> {
        self.filters@.map_values(|f: String| f@)
    }

    /// All values, plane after plane.
    pub closed spec fn values(&self) -> Seq<T> {
        self.data@
    }

    /// There is one value per voxel.
    pub closed spec fn wf(&self) -> bool {
        self.data@.len() == self.nx * self.ny * self.filters@.len()
    }

    /// A cube of the given layout holding `data`, when `data` has exactly one
    /// value per voxel.
    pub fn from_layout(layout: CubeLayout, data: Vec<T>) -> (r: Result<Cube<T>, FitsError>)
        requires
            layout.nx * layout.ny * layout.filters@.len() <= usize::MAX,
        ensures
            match r {
                Ok(c) => {
                    &&& c.wf()
                    &&& c.width() == layout.nx
                    &&& c.height() == layout.ny
                    &&& c.filter_names() == layout.filters@.map_values(|f: String| f@)
                    &&& c.values() == data@
                },
                Err(e) => data@.len() != layout.nx * layout.ny * layout.filters@.len() && e
                    == (FitsError::ShapeMismatch {
                    len: data@.len() as usize,
                    nx: layout.nx,
                    ny: layout.ny,
                    n_filters: layout.filters@.len() as usize,
                }),
            },
    {
        let n = layout.filters.len();
        match check_shape(data.len(), layout.nx, layout.ny, n) {
            Ok(()) => Ok(Cube { nx: layout.nx, ny: layout.ny, filters: layout.filters, data }),
            Err(e) => Err(e),
        }
    }

    pub fn nx(&self) -> (r: usize)
        ensures
            r == self.width(),
    {
        self.nx
    }

    pub fn ny(&self) -> (r: usize)
        ensures
            r == self.height(),
    {
        self.ny
    }

    /// The filter names, one per plane.
    pub fn filters(&self) -> (r: &Vec<String>)
        ensures
            r@.map_values(|f: String| f@) == self.filter_names(),
    {
        &self.filters
    }

    /// The number of filters (planes).
    pub fn n_filters(&self) -> (r: usize)
        ensures
            r == self.filter_names().len(),
    {
        self.filters.len()
    }

    /// Plane `filter_index` as `ny × nx` row-major values, `data[y*nx + x]`.
    pub fn slice(&self, filter_index: usize) -> (r: &[T])
        requires
            self.wf(),
            filter_index < self.filter_names().len(),
        ensures
            r@ == self.values().subrange(
                filter_index * (self.width() * self.height()),
                (filter_index + 1) * (self.width() * self.height()),
            ),
    {
        let ghost n = self.filters@.len();
        let len = self.data.len();
        proof {
            assert(self.nx * self.ny * n == (self.nx * self.ny) * n) by (nonlinear_arith);
            assert(0 <= self.nx * self.ny) by (nonlinear_arith)
                requires
                    self.nx >= 0,
                    self.ny >= 0,
            ;
            assert((filter_index + 1) * (self.nx * self.ny) <= (self.nx * self.ny) * n)
                by (nonlinear_arith)
                requires
                    filter_index + 1 <= n,
                    self.nx * self.ny >= 0,
            ;
            assert(filter_index * (self.nx * self.ny) <= (filter_index + 1) * (self.nx * self.ny))
                by (nonlinear_arith)
                requires
                    self.nx * self.ny >= 0,
            ;
            assert(self.nx * self.ny <= (filter_index + 1) * (self.nx * self.ny)) by (nonlinear_arith)
                requires
                    self.nx * self.ny >= 0,
                    filter_index >= 0,
            ;
            assert((filter_index + 1) * (self.nx * self.ny) <= len);
            assert((filter_index + 1) * (self.nx * self.ny) == filter_index * (self.nx * self.ny) + (
            self.nx * self.ny)) by (nonlinear_arith);
        }
        let plane: usize = self.nx * self.ny;
        let start: usize = filter_index * plane;
        vstd::slice::slice_subrange(self.data.as_slice(), start, start + plane)
    }
}

} // verus!
