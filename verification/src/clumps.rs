//! The clump catalog: clump properties and per-pixel clump assignments read
//! from two CSV files, a pixel-to-clump grid, and convex-hull boundaries.

use std::collections::BTreeMap;

use vstd::prelude::*;
use vstd::std_specs::cmp::OrdSpec;
use vstd::std_specs::iter::IteratorSpec;

use crate::hull::{convex_hull, is_hull_of};
use crate::text::{
    bool_text, chars_of, is_blank, lines_of, split_lines, chars_eq_str, fields_of, float_text, i64_text, is_float_text, parse_bool, parse_i64,
    split_commas, string_from_chars, trim, trim_chars, views,
};

verus! {

broadcast use vstd::std_specs::btree::group_btree_axioms, vstd::laws_cmp::group_laws_cmp;

/// Why a catalog could not be built from its CSV files.
#[derive(Debug)]
pub enum ClumpError {
    /// A file could not be read (produced where the files are read).
    Read { path: String, reason: String },
    /// A data row could not be read; `line` is 1-based, counting the header.
    BadRow { path: String, line: usize },
    /// A column the reader needs is absent from the header.
    MissingColumn { path: String, column: String },
}

// ---------------------------------------------------------------------------
// Columns
// ---------------------------------------------------------------------------

/// The trimmed names of the fields of a CSV header line.
pub open spec fn header_columns(header: Seq<char>) -> Seq<Seq<char>> {
    fields_of(header).map_values(|f: Seq<char>| trim(f))
}

/// The position of a column: the last header field with that name.
pub open spec fn column_of(cols: Seq<Seq<char>>, name: Seq<char>) -> Option<int>
    decreases cols.len(),
{
    if cols.len() == 0 {
        None
    } else if cols.last() == name {
        Some(cols.len() - 1)
    } else {
        column_of(cols.drop_last(), name)
    }
}

/// The trimmed column names of a header line, by position.
pub fn column_index(header: &[char]) -> (cols: Vec<Vec<char>>)
    ensures
        views(cols@) == header_columns(header@),
{
    let fields = split_commas(header);
    let mut cols: Vec<Vec<char>> = Vec::new();
    let mut i: usize = 0;
    while i < fields.len()
        invariant
            i <= fields@.len(),
            views(fields@) == fields_of(header@),
            views(cols@) == header_columns(header@).take(i as int),
        decreases fields.len() - i,
    {
        let ghost before = views(cols@);
        let t = trim_chars(&fields[i]);
        cols.push(t);
        proof {
            assert(views(fields@)[i as int] == fields@[i as int]@);
            assert(header_columns(header@)[i as int] == trim(fields@[i as int]@));
            assert(views(cols@) =~= before.push(trim(fields@[i as int]@)));
            assert(views(cols@) =~= header_columns(header@).take(i + 1));
        }
        i = i + 1;
    }
    proof {
        assert(header_columns(header@).take(fields@.len() as int) =~= header_columns(header@));
    }
    cols
}

fn column_position(cols: &Vec<Vec<char>>, name: &str) -> (r: Option<usize>)
    ensures
        match r {
            Some(k) => column_of(views(cols@), name@) == Some(k as int),
            None => column_of(views(cols@), name@) is None,
        },
{
    let mut i: usize = cols.len();
    proof {
        assert(views(cols@).take(i as int) =~= views(cols@));
    }
    while i > 0
        invariant
            i <= cols@.len(),
            column_of(views(cols@), name@) == column_of(views(cols@).take(i as int), name@),
        decreases i,
    {
        let ghost pre = views(cols@).take(i as int);
        proof {
            assert(pre.drop_last() =~= views(cols@).take(i - 1));
            assert(pre.last() == cols@[i - 1]@);
        }
        if chars_eq_str(&cols[i - 1], name) {
            return Some(i - 1);
        }
        i = i - 1;
    }
    None
}

/// The trimmed field at position `k` of a row, empty when the row is shorter.
pub open spec fn field_at(fields: Seq<Seq<char>>, k: int) -> Seq<char> {
    if 0 <= k < fields.len() {
        trim(fields[k])
    } else {
        Seq::empty()
    }
}

fn cell_text(fields: &Vec<Vec<char>>, k: usize) -> (r: Vec<char>)
    ensures
        r@ == field_at(views(fields@), k as int),
{
    if k < fields.len() {
        proof {
            assert(views(fields@)[k as int] == fields@[k as int]@);
        }
        trim_chars(&fields[k])
    } else {
        Vec::new()
    }
}

/// The trimmed field under column `name`, or `None` when the header lacks it.
pub open spec fn cell(cols: Seq<Seq<char>>, fields: Seq<Seq<char>>, name: Seq<char>) -> Option<
    Seq<char>,
> {
    match column_of(cols, name) {
        Some(k) => Some(field_at(fields, k)),
        None => None,
    }
}

// ---------------------------------------------------------------------------
// Properties
// ---------------------------------------------------------------------------

/// Physical and geometric metadata for one clump. The real-valued columns
/// are kept as their decimal text, which `str::parse::<f64>` accepts.
#[derive(Debug)]
pub struct ClumpProperties {
    pub clump_id: i64,
    pub area_pix: i64,
    pub area_arcsec2: String,
    pub r_eff_arcsec: String,
    pub x0: String,
    pub y0: String,
    pub area_kpc2: String,
    pub r_eff_kpc: String,
    pub inside: bool,
    pub component: String,
}

/// A clump's properties with its text fields as character sequences.
pub struct PropsView {
    pub clump_id: i64,
    pub area_pix: i64,
    pub area_arcsec2: Seq<char>,
    pub r_eff_arcsec: Seq<char>,
    pub x0: Seq<char>,
    pub y0: Seq<char>,
    pub area_kpc2: Seq<char>,
    pub r_eff_kpc: Seq<char>,
    pub inside: bool,
    pub component: Seq<char>,
}

impl View for ClumpProperties {
    type V = PropsView;

    open spec fn view(&self) -> PropsView {
        PropsView {
            clump_id: self.clump_id,
            area_pix: self.area_pix,
            area_arcsec2: self.area_arcsec2@,
            r_eff_arcsec: self.r_eff_arcsec@,
            x0: self.x0@,
            y0: self.y0@,
            area_kpc2: self.area_kpc2@,
            r_eff_kpc: self.r_eff_kpc@,
            inside: self.inside,
            component: self.component@,
        }
    }
}

/// What stops a data row from being read.
pub enum RowFault {
    /// A field does not hold what its column needs.
    Malformed,
    /// The header has no column of this name.
    MissingColumn(&'static str),
}

/// A row fault with the column name as a character sequence.
pub ghost enum RowIssue {
    Malformed,
    MissingColumn(Seq<char>),
}

impl View for RowFault {
    type V = RowIssue;

    open spec fn view(&self) -> RowIssue {
        match self {
            RowFault::Malformed => RowIssue::Malformed,
            RowFault::MissingColumn(name) => RowIssue::MissingColumn(name@),
        }
    }
}

/// The first problem with a property row, reading its fields in the order
/// `clump_id`, `area_pix`, the six real-valued columns, `inside`, `component`.
pub open spec fn property_row_fault(cols: Seq<Seq<char>>, fields: Seq<Seq<char>>) -> Option<RowIssue> {
    if cell(cols, fields, "clump_id"@) is None {
        Some(RowIssue::MissingColumn("clump_id"@))
    } else if i64_text(cell(cols, fields, "clump_id"@).unwrap()) is None {
        Some(RowIssue::Malformed)
    } else if cell(cols, fields, "area_pix"@) is None {
        Some(RowIssue::MissingColumn("area_pix"@))
    } else if i64_text(cell(cols, fields, "area_pix"@).unwrap()) is None {
        Some(RowIssue::Malformed)
    } else if cell(cols, fields, "area_arcsec2"@) is None {
        Some(RowIssue::MissingColumn("area_arcsec2"@))
    } else if !float_text(cell(cols, fields, "area_arcsec2"@).unwrap()) {
        Some(RowIssue::Malformed)
    } else if cell(cols, fields, "r_eff_arcsec"@) is None {
        Some(RowIssue::MissingColumn("r_eff_arcsec"@))
    } else if !float_text(cell(cols, fields, "r_eff_arcsec"@).unwrap()) {
        Some(RowIssue::Malformed)
    } else if cell(cols, fields, "x0"@) is None {
        Some(RowIssue::MissingColumn("x0"@))
    } else if !float_text(cell(cols, fields, "x0"@).unwrap()) {
        Some(RowIssue::Malformed)
    } else if cell(cols, fields, "y0"@) is None {
        Some(RowIssue::MissingColumn("y0"@))
    } else if !float_text(cell(cols, fields, "y0"@).unwrap()) {
        Some(RowIssue::Malformed)
    } else if cell(cols, fields, "area_kpc2"@) is None {
        Some(RowIssue::MissingColumn("area_kpc2"@))
    } else if !float_text(cell(cols, fields, "area_kpc2"@).unwrap()) {
        Some(RowIssue::Malformed)
    } else if cell(cols, fields, "r_eff_kpc"@) is None {
        Some(RowIssue::MissingColumn("r_eff_kpc"@))
    } else if !float_text(cell(cols, fields, "r_eff_kpc"@).unwrap()) {
        Some(RowIssue::Malformed)
    } else if cell(cols, fields, "inside"@) is None {
        Some(RowIssue::MissingColumn("inside"@))
    } else if cell(cols, fields, "component"@) is None {
        Some(RowIssue::MissingColumn("component"@))
    } else {
        None
    }
}

/// The properties a well-formed row holds.
pub open spec fn property_row(cols: Seq<Seq<char>>, fields: Seq<Seq<char>>) -> PropsView {
    PropsView {
        clump_id: i64_text(cell(cols, fields, "clump_id"@).unwrap()).unwrap(),
        area_pix: i64_text(cell(cols, fields, "area_pix"@).unwrap()).unwrap(),
        area_arcsec2: cell(cols, fields, "area_arcsec2"@).unwrap(),
        r_eff_arcsec: cell(cols, fields, "r_eff_arcsec"@).unwrap(),
        x0: cell(cols, fields, "x0"@).unwrap(),
        y0: cell(cols, fields, "y0"@).unwrap(),
        area_kpc2: cell(cols, fields, "area_kpc2"@).unwrap(),
        r_eff_kpc: cell(cols, fields, "r_eff_kpc"@).unwrap(),
        inside: bool_text(cell(cols, fields, "inside"@).unwrap()),
        component: cell(cols, fields, "component"@).unwrap(),
    }
}

/// The column named `name` is the last header field with that name.
proof fn lemma_column_of_last(cols: Seq<Seq<char>>, name: Seq<char>, k: int)
    requires
        0 <= k < cols.len(),
        cols[k] == name,
        forall|j: int| k < j < cols.len() ==> cols[j] != name,
    ensures
        column_of(cols, name) == Some(k),
    decreases cols.len(),
{
    if cols.len() - 1 != k {
        assert(cols.last() != name);
        let c2 = cols.drop_last();
        assert forall|j: int| k < j < c2.len() implies c2[j] != name by {
            assert(c2[j] == cols[j]);
        }
        lemma_column_of_last(c2, name, k);
    }
}

/// Each field of a well-formed property row is read from the row's field at
/// the position of the header column of that field's name (the last such
/// column), trimmed, and empty when the row is shorter than the header: the
/// integer columns as their value, `inside` as its truth value, the others
/// as their text.
pub proof fn lemma_row_field_under_its_column(cols: Seq<Seq<char>>, fields: Seq<Seq<char>>, k: int)
    requires
        property_row_fault(cols, fields) is None,
        0 <= k < cols.len(),
        forall|j: int| k < j < cols.len() ==> cols[j] != cols[k],
    ensures
        ({
            let p = property_row(cols, fields);
            let f = if k < fields.len() {
                trim(fields[k])
            } else {
                Seq::<char>::empty()
            };
            &&& cols[k] == "clump_id"@ ==> i64_text(f) == Some(p.clump_id)
            &&& cols[k] == "area_pix"@ ==> i64_text(f) == Some(p.area_pix)
            &&& cols[k] == "area_arcsec2"@ ==> p.area_arcsec2 == f
            &&& cols[k] == "r_eff_arcsec"@ ==> p.r_eff_arcsec == f
            &&& cols[k] == "x0"@ ==> p.x0 == f
            &&& cols[k] == "y0"@ ==> p.y0 == f
            &&& cols[k] == "area_kpc2"@ ==> p.area_kpc2 == f
            &&& cols[k] == "r_eff_kpc"@ ==> p.r_eff_kpc == f
            &&& cols[k] == "inside"@ ==> p.inside == bool_text(f)
            &&& cols[k] == "component"@ ==> p.component == f
        }),
{
    lemma_column_of_last(cols, cols[k], k);
}

/// Reads one property row from its fields.
pub fn read_property_row(cols: &Vec<Vec<char>>, fields: &Vec<Vec<char>>) -> (r: Result<ClumpProperties, RowFault>)
    ensures
        match r {
            Ok(p) => property_row_fault(views(cols@), views(fields@)) is None && p@ == property_row(views(cols@), views(fields@)),
            Err(f) => property_row_fault(views(cols@), views(fields@)) == Some(f@),
        },
{
    let f_clump_id = match column_position(cols, "clump_id") {
        None => {
            return Err(RowFault::MissingColumn("clump_id"));
        },
        Some(k) => cell_text(fields, k),
    };
    let clump_id = match parse_i64(&f_clump_id) {
        None => {
            return Err(RowFault::Malformed);
        },
        Some(v) => v,
    };
    let f_area_pix = match column_position(cols, "area_pix") {
        None => {
            return Err(RowFault::MissingColumn("area_pix"));
        },
        Some(k) => cell_text(fields, k),
    };
    let area_pix = match parse_i64(&f_area_pix) {
        None => {
            return Err(RowFault::Malformed);
        },
        Some(v) => v,
    };
    let f_area_arcsec2 = match column_position(cols, "area_arcsec2") {
        None => {
            return Err(RowFault::MissingColumn("area_arcsec2"));
        },
        Some(k) => cell_text(fields, k),
    };
    if !is_float_text(&f_area_arcsec2) {
        return Err(RowFault::Malformed);
    }
    let area_arcsec2 = string_from_chars(&f_area_arcsec2);
    let f_r_eff_arcsec = match column_position(cols, "r_eff_arcsec") {
        None => {
            return Err(RowFault::MissingColumn("r_eff_arcsec"));
        },
        Some(k) => cell_text(fields, k),
    };
    if !is_float_text(&f_r_eff_arcsec) {
        return Err(RowFault::Malformed);
    }
    let r_eff_arcsec = string_from_chars(&f_r_eff_arcsec);
    let f_x0 = match column_position(cols, "x0") {
        None => {
            return Err(RowFault::MissingColumn("x0"));
        },
        Some(k) => cell_text(fields, k),
    };
    if !is_float_text(&f_x0) {
        return Err(RowFault::Malformed);
    }
    let x0 = string_from_chars(&f_x0);
    let f_y0 = match column_position(cols, "y0") {
        None => {
            return Err(RowFault::MissingColumn("y0"));
        },
        Some(k) => cell_text(fields, k),
    };
    if !is_float_text(&f_y0) {
        return Err(RowFault::Malformed);
    }
    let y0 = string_from_chars(&f_y0);
    let f_area_kpc2 = match column_position(cols, "area_kpc2") {
        None => {
            return Err(RowFault::MissingColumn("area_kpc2"));
        },
        Some(k) => cell_text(fields, k),
    };
    if !is_float_text(&f_area_kpc2) {
        return Err(RowFault::Malformed);
    }
    let area_kpc2 = string_from_chars(&f_area_kpc2);
    let f_r_eff_kpc = match column_position(cols, "r_eff_kpc") {
        None => {
            return Err(RowFault::MissingColumn("r_eff_kpc"));
        },
        Some(k) => cell_text(fields, k),
    };
    if !is_float_text(&f_r_eff_kpc) {
        return Err(RowFault::Malformed);
    }
    let r_eff_kpc = string_from_chars(&f_r_eff_kpc);
    let f_inside = match column_position(cols, "inside") {
        None => {
            return Err(RowFault::MissingColumn("inside"));
        },
        Some(k) => cell_text(fields, k),
    };
    let inside = parse_bool(&f_inside);
    let f_component = match column_position(cols, "component") {
        None => {
            return Err(RowFault::MissingColumn("component"));
        },
        Some(k) => cell_text(fields, k),
    };
    let component = string_from_chars(&f_component);
    Ok(ClumpProperties { clump_id, area_pix, area_arcsec2, r_eff_arcsec, x0, y0, area_kpc2, r_eff_kpc, inside, component })
}


// ---------------------------------------------------------------------------
// Reading the property file
// ---------------------------------------------------------------------------

/// The header line of a text's lines, empty when there are none.
pub open spec fn header_line(ls: Seq<Seq<char>>) -> Seq<char> {
    if ls.len() > 0 {
        ls[0]
    } else {
        Seq::empty()
    }
}

/// The lines after the header.
pub open spec fn data_rows(ls: Seq<Seq<char>>) -> Seq<Seq<char>> {
    if ls.len() > 0 {
        ls.drop_first()
    } else {
        Seq::empty()
    }
}

/// A map of properties with its text fields as character sequences.
pub open spec fn props_view(m: Map<i64, ClumpProperties>) -> Map<i64, PropsView> {
    m.map_values(|p: ClumpProperties| p@)
}

/// Reads property rows into `acc`, `rows[0]` being line `line` of the file:
/// blank rows are skipped, a later row replaces an earlier one with the same
/// id, and the first faulty row stops the reading.
pub open spec fn fold_properties(
    cols: Seq<Seq<char>>,
    rows: Seq<Seq<char>>,
    line: int,
    acc: Map<i64, PropsView>,
) -> Result<Map<i64, PropsView>, (RowIssue, int)>
    decreases rows.len(),
{
    if rows.len() == 0 {
        Ok(acc)
    } else if is_blank(rows[0]) {
        fold_properties(cols, rows.drop_first(), line + 1, acc)
    } else {
        match property_row_fault(cols, fields_of(rows[0])) {
            Some(f) => Err((f, line)),
            None => {
                let p = property_row(cols, fields_of(rows[0]));
                fold_properties(cols, rows.drop_first(), line + 1, acc.insert(p.clump_id, p))
            },
        }
    }
}

/// The clump properties a property CSV text holds, keyed by clump id, or the
/// fault of its first faulty row with that row's line number.
pub open spec fn properties_of(text: Seq<char>) -> Result<Map<i64, PropsView>, (RowIssue, int)> {
    let ls = lines_of(text);
    fold_properties(header_columns(header_line(ls)), data_rows(ls), 2, Map::empty())
}

/// `e` reports `issue` for the file at `path`.
pub open spec fn reports(e: ClumpError, path: Seq<char>, issue: (RowIssue, int)) -> bool {
    match issue.0 {
        RowIssue::Malformed => e matches ClumpError::BadRow { path: p, line } && p@ == path && line
            == issue.1,
        RowIssue::MissingColumn(c) => e matches ClumpError::MissingColumn { path: p, column } && p@
            == path && column@ == c,
    }
}

fn fault_error(path: &str, f: RowFault, line: usize) -> (e: ClumpError)
    ensures
        reports(e, path@, (f@, line as int)),
{
    match f {
        RowFault::Malformed => ClumpError::BadRow { path: path.to_string(), line },
        RowFault::MissingColumn(name) => ClumpError::MissingColumn {
            path: path.to_string(),
            column: name.to_string(),
        },
    }
}

/// Reads the clump property CSV text of the file at `path`.
pub fn read_properties(path: &str, text: &str) -> (r: Result<BTreeMap<i64, ClumpProperties>, ClumpError>)
    ensures
        match (r, properties_of(text@)) {
            (Ok(m), Ok(model)) => props_view(m@) == model,
            (Err(e), Err(issue)) => reports(e, path@, issue),
            _ => false,
        },
{
    let chars = chars_of(text);
    let lines = split_lines(&chars);
    let ghost ls = lines_of(text@);
    let cols = if lines.len() > 0 {
        proof {
            assert(views(lines@)[0] == lines@[0]@);
        }
        column_index(&lines[0])
    } else {
        column_index(&Vec::new())
    };
    let ghost cs = header_columns(header_line(ls));
    let mut props: BTreeMap<i64, ClumpProperties> = BTreeMap::new();
    let mut n: usize = 1;
    proof {
        assert(props_view(props@) =~= Map::<i64, PropsView>::empty());
        if ls.len() > 0 {
            assert(data_rows(ls) =~= ls.skip(1));
        }
    }
    while n < lines.len()
        invariant
            views(lines@) == ls,
            ls == lines_of(text@),
            lines@.len() <= chars@.len(),
            views(cols@) == cs,
            cs == header_columns(header_line(ls)),
            1 <= n,
            n <= lines@.len() || lines@.len() == 0,
            properties_of(text@) == fold_properties(
                cs,
                if ls.len() > 0 { ls.skip(n as int) } else { Seq::empty() },
                n + 1,
                props_view(props@),
            ),
        decreases lines.len() - n,
    {
        let ghost rest = ls.skip(n as int);
        proof {
            assert(rest[0] == lines@[n as int]@);
            assert(rest.drop_first() =~= ls.skip(n + 1));
        }
        let t = trim_chars(&lines[n]);
        if t.len() == 0 {
            n = n + 1;
            continue;
        }
        let fields = split_commas(&lines[n]);
        match read_property_row(&cols, &fields) {
            Err(f) => {
                return Err(fault_error(path, f, n + 1));
            },
            Ok(p) => {
                let ghost pv = p@;
                let ghost before = props_view(props@);
                props.insert(p.clump_id, p);
                proof {
                    assert(props_view(props@) =~= before.insert(pv.clump_id, pv));
                }
            },
        }
        n = n + 1;
    }
    proof {
        if ls.len() > 0 {
            assert(ls.skip(n as int) =~= Seq::<Seq<char>>::empty());
        }
    }
    Ok(props)
}


// ---------------------------------------------------------------------------
// Reading the pixel file
// ---------------------------------------------------------------------------

/// A pixel row's `(clump id, x, y)`, when the row has all three fields and
/// each is an `i64`.
pub open spec fn pixel_row(fields: Seq<Seq<char>>, ci: int, xi: int, yi: int) -> Option<
    (i64, i64, i64),
> {
    if 0 <= ci < fields.len() && 0 <= xi < fields.len() && 0 <= yi < fields.len() && i64_text(
        trim(fields[ci]),
    ) is Some && i64_text(trim(fields[xi])) is Some && i64_text(trim(fields[yi])) is Some {
        Some(
            (
                i64_text(trim(fields[ci])).unwrap(),
                i64_text(trim(fields[xi])).unwrap(),
                i64_text(trim(fields[yi])).unwrap(),
            ),
        )
    } else {
        None
    }
}

/// Prefixes `done` to the rows of a successful reading.
pub open spec fn after(done: Seq<(i64, i64, i64)>, r: Result<Seq<(i64, i64, i64)>, int>) -> Result<
    Seq<(i64, i64, i64)>,
    int,
> {
    match r {
        Ok(ts) => Ok(done + ts),
        Err(l) => Err(l),
    }
}

/// Reads pixel rows, `rows[0]` being line `line` of the file: blank rows are
/// skipped and the first faulty row's line number is the error.
pub open spec fn fold_pixel_rows(rows: Seq<Seq<char>>, ci: int, xi: int, yi: int, line: int) -> Result<
    Seq<(i64, i64, i64)>,
    int,
>
    decreases rows.len(),
{
    if rows.len() == 0 {
        Ok(Seq::empty())
    } else if is_blank(rows[0]) {
        fold_pixel_rows(rows.drop_first(), ci, xi, yi, line + 1)
    } else {
        match pixel_row(fields_of(rows[0]), ci, xi, yi) {
            None => Err(line),
            Some(t) => after(seq![t], fold_pixel_rows(rows.drop_first(), ci, xi, yi, line + 1)),
        }
    }
}

/// The `(clump id, x, y)` rows a pixel CSV text holds, in file order, or why
/// it cannot be read: a missing `clump_id`, `x` or `y` column (checked in that
/// order), or the line of the first faulty row.
pub open spec fn pixel_rows_of(text: Seq<char>) -> Result<Seq<(i64, i64, i64)>, (RowIssue, int)> {
    let ls = lines_of(text);
    let cols = header_columns(header_line(ls));
    if column_of(cols, "clump_id"@) is None {
        Err((RowIssue::MissingColumn("clump_id"@), 0))
    } else if column_of(cols, "x"@) is None {
        Err((RowIssue::MissingColumn("x"@), 0))
    } else if column_of(cols, "y"@) is None {
        Err((RowIssue::MissingColumn("y"@), 0))
    } else {
        match fold_pixel_rows(
            data_rows(ls),
            column_of(cols, "clump_id"@).unwrap(),
            column_of(cols, "x"@).unwrap(),
            column_of(cols, "y"@).unwrap(),
            2,
        ) {
            Ok(rows) => Ok(rows),
            Err(line) => Err((RowIssue::Malformed, line)),
        }
    }
}

/// The row's pixel lies inside an `nx × ny` grid.
pub open spec fn in_bounds(r: (i64, i64, i64), nx: int, ny: int) -> bool {
    0 <= r.1 < nx && 0 <= r.2 < ny
}

/// The grid entry for a clump id: the id when it fits an `i32`, else `-1`.
pub open spec fn grid_id(cid: i64) -> i32 {
    if i32::MIN <= cid <= i32::MAX {
        cid as i32
    } else {
        -1i32
    }
}

/// The row-major `nx × ny` pixel-to-clump grid after the rows, applied in
/// order: each in-bounds row writes its clump's grid id at its pixel; cells
/// no row writes hold `-1`.
pub open spec fn grid_after(rows: Seq<(i64, i64, i64)>, nx: int, ny: int) -> Seq<i32>
    decreases rows.len(),
{
    if rows.len() == 0 {
        Seq::new((nx * ny) as nat, |i: int| -1i32)
    } else {
        let g = grid_after(rows.drop_last(), nx, ny);
        let r = rows.last();
        if in_bounds(r, nx, ny) {
            g.update(r.2 * nx + r.1, grid_id(r.0))
        } else {
            g
        }
    }
}

/// The pixel a row names, as stored in a clump's pixel list.
pub open spec fn pixel_of(r: (i64, i64, i64)) -> (u32, u32) {
    (r.1 as u32, r.2 as u32)
}

/// Each clump's pixels after the rows, in row order: the in-bounds rows of
/// that clump.
pub open spec fn lists_after(rows: Seq<(i64, i64, i64)>, nx: int, ny: int) -> Map<i64, Seq<(u32, u32)>>
    decreases rows.len(),
{
    if rows.len() == 0 {
        Map::empty()
    } else {
        let m = lists_after(rows.drop_last(), nx, ny);
        let r = rows.last();
        if in_bounds(r, nx, ny) {
            m.insert(
                r.0,
                (if m.contains_key(r.0) {
                    m[r.0]
                } else {
                    Seq::empty()
                }).push(pixel_of(r)),
            )
        } else {
            m
        }
    }
}

/// A map of pixel lists with the lists as sequences.
pub open spec fn lists_view(m: Map<i64, Vec<(u32, u32)>>) -> Map<i64, Seq<(u32, u32)>> {
    m.map_values(|v: Vec<(u32, u32)>| v@)
}

proof fn lemma_grid_len(rows: Seq<(i64, i64, i64)>, nx: int, ny: int)
    requires
        nx >= 0,
        ny >= 0,
    ensures
        grid_after(rows, nx, ny).len() == nx * ny,
    decreases rows.len(),
{
    if rows.len() > 0 {
        lemma_grid_len(rows.drop_last(), nx, ny);
        let r = rows.last();
        if in_bounds(r, nx, ny) {
            lemma_cell_index(r.1 as int, r.2 as int, nx, ny);
        }
    } else {
        assert(nx * ny >= 0) by (nonlinear_arith)
            requires
                nx >= 0,
                ny >= 0,
        ;
    }
}

proof fn lemma_cell_index(x: int, y: int, nx: int, ny: int)
    requires
        0 <= x < nx,
        0 <= y < ny,
    ensures
        0 <= y * nx + x < nx * ny,
{
    assert(0 <= y * nx + x < nx * ny) by (nonlinear_arith)
        requires
            0 <= x < nx,
            0 <= y < ny,
    ;
}

/// Distinct in-grid pixels have distinct cells.
proof fn lemma_cell_injective(x: int, y: int, x2: int, y2: int, nx: int)
    requires
        0 <= x < nx,
        0 <= x2 < nx,
        0 <= y,
        0 <= y2,
        y * nx + x == y2 * nx + x2,
    ensures
        x == x2 && y == y2,
{
    assert(y == y2) by (nonlinear_arith)
        requires
            0 <= x < nx,
            0 <= x2 < nx,
            0 <= y,
            0 <= y2,
            y * nx + x == y2 * nx + x2,
    ;
}

/// Every pixel in a clump's list lies inside the grid, and every listed
/// clump has at least one pixel.
pub proof fn lemma_listed_pixels_in_grid(rows: Seq<(i64, i64, i64)>, nx: int, ny: int)
    requires
        0 <= nx <= 0x1_0000_0000,
        0 <= ny <= 0x1_0000_0000,
    ensures
        forall|cid: i64| #[trigger]
            lists_after(rows, nx, ny).contains_key(cid) ==> lists_after(rows, nx, ny)[cid].len()
                > 0,
        forall|cid: i64, j: int|
            lists_after(rows, nx, ny).contains_key(cid) && 0 <= j < lists_after(rows, nx, ny)[cid].len()
                ==> (#[trigger] lists_after(rows, nx, ny)[cid][j]).0 < nx && lists_after(
                rows,
                nx,
                ny,
            )[cid][j].1 < ny,
    decreases rows.len(),
{
    if rows.len() > 0 {
        lemma_listed_pixels_in_grid(rows.drop_last(), nx, ny);
        let m = lists_after(rows.drop_last(), nx, ny);
        let r = rows.last();
        if in_bounds(r, nx, ny) {
            assert((r.1 as u32) as int == r.1);
            assert((r.2 as u32) as int == r.2);
            let old_list = if m.contains_key(r.0) {
                m[r.0]
            } else {
                Seq::empty()
            };
            let m2 = lists_after(rows, nx, ny);
            assert forall|cid: i64, j: int|
                m2.contains_key(cid) && 0 <= j < m2[cid].len() implies (#[trigger] m2[cid][j]).0 < nx
                && m2[cid][j].1 < ny by {
                if cid == r.0 {
                    if j < old_list.len() {
                        assert(m2[cid][j] == m[cid][j]);
                    }
                } else {
                    assert(m2[cid] == m[cid]);
                }
            }
        }
    }
}

/// A later pixel row overwrites the grid cell of its pixel with its clump's
/// grid id and leaves every other cell as it was; a row outside the grid
/// changes nothing.
pub proof fn lemma_later_row_overwrites(rows: Seq<(i64, i64, i64)>, r: (i64, i64, i64), nx: int, ny: int)
    requires
        nx >= 0,
        ny >= 0,
    ensures
        in_bounds(r, nx, ny) ==> grid_after(rows.push(r), nx, ny)[r.2 * nx + r.1] == grid_id(r.0),
        in_bounds(r, nx, ny) ==> forall|c: int|
            0 <= c < nx * ny && c != r.2 * nx + r.1 ==> #[trigger] grid_after(rows.push(r), nx, ny)[c]
                == grid_after(rows, nx, ny)[c],
        !in_bounds(r, nx, ny) ==> grid_after(rows.push(r), nx, ny) == grid_after(rows, nx, ny),
        grid_after(rows.push(r), nx, ny).len() == nx * ny,
{
    assert(rows.push(r).drop_last() =~= rows);
    lemma_grid_len(rows, nx, ny);
    lemma_grid_len(rows.push(r), nx, ny);
    if in_bounds(r, nx, ny) {
        lemma_cell_index(r.1 as int, r.2 as int, nx, ny);
    }
}

/// A clump has a pixel list exactly when some row inside the grid names it.
pub proof fn lemma_listed_clumps_have_rows(rows: Seq<(i64, i64, i64)>, nx: int, ny: int, cid: i64)
    ensures
        lists_after(rows, nx, ny).contains_key(cid) <==> exists|t: int|
            0 <= t < rows.len() && (#[trigger] rows[t]).0 == cid && in_bounds(rows[t], nx, ny),
    decreases rows.len(),
{
    if rows.len() > 0 {
        let prev = rows.drop_last();
        lemma_listed_clumps_have_rows(prev, nx, ny, cid);
        let r = rows.last();
        if lists_after(prev, nx, ny).contains_key(cid) {
            let t = choose|t: int| 0 <= t < prev.len() && (#[trigger] prev[t]).0 == cid && in_bounds(prev[t], nx, ny);
            assert(rows[t] == prev[t]);
        }
        if exists|t: int| 0 <= t < rows.len() && (#[trigger] rows[t]).0 == cid && in_bounds(rows[t], nx, ny) {
            let t = choose|t: int| 0 <= t < rows.len() && (#[trigger] rows[t]).0 == cid && in_bounds(rows[t], nx, ny);
            if t < rows.len() - 1 {
                assert(prev[t] == rows[t]);
            }
        }
    }
}

/// Every grid cell that holds a clump id was written by a pixel of a clump
/// with that id in the grid's form: the clump lists the pixel.
pub proof fn lemma_grid_cell_listed(rows: Seq<(i64, i64, i64)>, nx: int, ny: int, x: int, y: int)
    requires
        0 <= x < nx <= 0x1_0000_0000,
        0 <= y < ny <= 0x1_0000_0000,
        grid_after(rows, nx, ny)[y * nx + x] != -1,
    ensures
        exists|cid: i64|
            #![trigger lists_after(rows, nx, ny)[cid]]
            lists_after(rows, nx, ny).contains_key(cid) && lists_after(rows, nx, ny)[cid].contains(
                (x as u32, y as u32),
            ) && grid_id(cid) == grid_after(rows, nx, ny)[y * nx + x],
    decreases rows.len(),
{
    lemma_cell_index(x, y, nx, ny);
    lemma_grid_len(rows, nx, ny);
    if rows.len() == 0 {
        assert(grid_after(rows, nx, ny)[y * nx + x] == -1);
    } else {
        let prev = rows.drop_last();
        lemma_grid_len(prev, nx, ny);
        let g = grid_after(prev, nx, ny);
        let m = lists_after(prev, nx, ny);
        let m2 = lists_after(rows, nx, ny);
        let r = rows.last();
        let cell = y * nx + x;
        if in_bounds(r, nx, ny) && r.2 * nx + r.1 == cell {
            lemma_cell_injective(x, y, r.1 as int, r.2 as int, nx);
            let old_list = if m.contains_key(r.0) {
                m[r.0]
            } else {
                Seq::empty()
            };
            assert(m2[r.0] == old_list.push(pixel_of(r)));
            assert(m2[r.0][old_list.len() as int] == (x as u32, y as u32));
        } else {
            if in_bounds(r, nx, ny) {
                lemma_cell_index(r.1 as int, r.2 as int, nx, ny);
            }
            assert(grid_after(rows, nx, ny)[cell] == g[cell]);
            lemma_grid_cell_listed(prev, nx, ny, x, y);
            let cid = choose|cid: i64|
                #![trigger m[cid]]
                m.contains_key(cid) && m[cid].contains((x as u32, y as u32)) && grid_id(cid)
                    == g[cell];
            let k = choose|k: int| 0 <= k < m[cid].len() && m[cid][k] == (x as u32, y as u32);
            if in_bounds(r, nx, ny) && cid == r.0 {
                assert(m2[cid][k] == m[cid][k]);
            } else {
                assert(m2[cid] == m[cid]);
            }
            assert(m2[cid][k] == (x as u32, y as u32));
        }
    }
}

/// Each clump in a property text is stored under its own id.
pub proof fn lemma_properties_keyed_by_id(text: Seq<char>)
    ensures
        properties_of(text) is Ok ==> forall|k: i64| #[trigger]
            properties_of(text)->Ok_0.contains_key(k) ==> properties_of(text)->Ok_0[k].clump_id == k,
{
    let ls = lines_of(text);
    lemma_fold_keyed(header_columns(header_line(ls)), data_rows(ls), 2, Map::empty());
}

proof fn lemma_fold_keyed(
    cols: Seq<Seq<char>>,
    rows: Seq<Seq<char>>,
    line: int,
    acc: Map<i64, PropsView>,
)
    requires
        forall|k: i64| #[trigger] acc.contains_key(k) ==> acc[k].clump_id == k,
    ensures
        fold_properties(cols, rows, line, acc) is Ok ==> forall|k: i64| #[trigger]
            fold_properties(cols, rows, line, acc)->Ok_0.contains_key(k) ==> fold_properties(
                cols,
                rows,
                line,
                acc,
            )->Ok_0[k].clump_id == k,
    decreases rows.len(),
{
    if rows.len() > 0 {
        if is_blank(rows[0]) {
            lemma_fold_keyed(cols, rows.drop_first(), line + 1, acc);
        } else if property_row_fault(cols, fields_of(rows[0])) is None {
            let p = property_row(cols, fields_of(rows[0]));
            lemma_fold_keyed(cols, rows.drop_first(), line + 1, acc.insert(p.clump_id, p));
        }
    }
}

fn pixel_fields(fields: &Vec<Vec<char>>, ci: usize, xi: usize, yi: usize) -> (r: Option<(i64, i64, i64)>)
    ensures
        r == pixel_row(views(fields@), ci as int, xi as int, yi as int),
{
    if ci >= fields.len() || xi >= fields.len() || yi >= fields.len() {
        return None;
    }
    proof {
        assert(views(fields@)[ci as int] == fields@[ci as int]@);
        assert(views(fields@)[xi as int] == fields@[xi as int]@);
        assert(views(fields@)[yi as int] == fields@[yi as int]@);
    }
    let cid = match parse_i64(&trim_chars(&fields[ci])) {
        None => {
            return None;
        },
        Some(v) => v,
    };
    let x = match parse_i64(&trim_chars(&fields[xi])) {
        None => {
            return None;
        },
        Some(v) => v,
    };
    let y = match parse_i64(&trim_chars(&fields[yi])) {
        None => {
            return None;
        },
        Some(v) => v,
    };
    Some((cid, x, y))
}

/// Reads the pixel CSV text of the file at `path` into a row-major
/// `nx × ny` pixel-to-clump grid (`-1` = no clump) and each clump's pixel
/// list. Rows naming a pixel outside the grid are dropped.
pub fn read_pixels(path: &str, text: &str, nx: usize, ny: usize) -> (r: Result<
    (Vec<i32>, BTreeMap<i64, Vec<(u32, u32)>>),
    ClumpError,
>)
    requires
        nx * ny <= usize::MAX,
    ensures
        match (r, pixel_rows_of(text@)) {
            (Ok((g, m)), Ok(rows)) => g@ == grid_after(rows, nx as int, ny as int) && lists_view(m@)
                == lists_after(rows, nx as int, ny as int),
            (Err(e), Err(issue)) => reports(e, path@, issue),
            _ => false,
        },
{
    let chars = chars_of(text);
    let lines = split_lines(&chars);
    let ghost ls = lines_of(text@);
    let cols = if lines.len() > 0 {
        proof {
            assert(views(lines@)[0] == lines@[0]@);
        }
        column_index(&lines[0])
    } else {
        column_index(&Vec::new())
    };
    let ghost cs = header_columns(header_line(ls));
    let ci = match column_position(&cols, "clump_id") {
        None => {
            return Err(ClumpError::MissingColumn { path: path.to_string(), column: "clump_id".to_string() });
        },
        Some(k) => k,
    };
    let xi = match column_position(&cols, "x") {
        None => {
            return Err(ClumpError::MissingColumn { path: path.to_string(), column: "x".to_string() });
        },
        Some(k) => k,
    };
    let yi = match column_position(&cols, "y") {
        None => {
            return Err(ClumpError::MissingColumn { path: path.to_string(), column: "y".to_string() });
        },
        Some(k) => k,
    };
    let size = nx * ny;
    let mut grid: Vec<i32> = Vec::new();
    let mut k: usize = 0;
    while k < size
        invariant
            k <= size,
            grid@ == Seq::new(k as nat, |i: int| -1i32),
        decreases size - k,
    {
        grid.push(-1);
        k = k + 1;
        proof {
            assert(grid@ =~= Seq::new(k as nat, |i: int| -1i32));
        }
    }
    let mut pixels: BTreeMap<i64, Vec<(u32, u32)>> = BTreeMap::new();
    let ghost all = fold_pixel_rows(data_rows(ls), ci as int, xi as int, yi as int, 2);
    let ghost mut done: Seq<(i64, i64, i64)> = Seq::empty();
    let mut n: usize = 1;
    proof {
        assert(lists_view(pixels@) =~= Map::<i64, Seq<(u32, u32)>>::empty());
        assert(grid@ =~= grid_after(done, nx as int, ny as int));
        if ls.len() > 0 {
            assert(data_rows(ls) =~= ls.skip(1));
        }
        assert(after(done, all) =~= all) by {
            if all is Ok {
                assert(done + all->Ok_0 =~= all->Ok_0);
            }
        }
    }
    while n < lines.len()
        invariant
            views(lines@) == ls,
            ls == lines_of(text@),
            lines@.len() <= chars@.len(),
            1 <= n,
            n <= lines@.len() || lines@.len() == 0,
            nx * ny <= usize::MAX,
            all == fold_pixel_rows(data_rows(ls), ci as int, xi as int, yi as int, 2),
            views(cols@) == cs,
            cs == header_columns(header_line(ls)),
            column_of(cs, "clump_id"@) == Some(ci as int),
            column_of(cs, "x"@) == Some(xi as int),
            column_of(cs, "y"@) == Some(yi as int),
            all == after(
                done,
                fold_pixel_rows(
                    if ls.len() > 0 { ls.skip(n as int) } else { Seq::empty() },
                    ci as int,
                    xi as int,
                    yi as int,
                    n + 1,
                ),
            ),
            grid@ == grid_after(done, nx as int, ny as int),
            lists_view(pixels@) == lists_after(done, nx as int, ny as int),
        decreases lines.len() - n,
    {
        let ghost rest = ls.skip(n as int);
        proof {
            assert(rest[0] == lines@[n as int]@);
            assert(rest.drop_first() =~= ls.skip(n + 1));
        }
        let t = trim_chars(&lines[n]);
        if t.len() == 0 {
            n = n + 1;
            continue;
        }
        let fields = split_commas(&lines[n]);
        match pixel_fields(&fields, ci, xi, yi) {
            None => {
                proof {
                    assert(!is_blank(rest[0]));
                    assert(fold_pixel_rows(rest, ci as int, xi as int, yi as int, n + 1) == Err::<
                        Seq<(i64, i64, i64)>,
                        int,
                    >(n + 1));
                }
                return Err(ClumpError::BadRow { path: path.to_string(), line: n + 1 });
            },
            Some(row) => {
                let (cid, x, y) = row;
                let ghost next = fold_pixel_rows(rest.drop_first(), ci as int, xi as int, yi as int, n + 2);
                proof {
                    assert(after(done, after(seq![row], next)) =~= after(done.push(row), next)) by {
                        if next is Ok {
                            assert(done + (seq![row] + next->Ok_0) =~= done.push(row) + next->Ok_0);
                        }
                    }
                    assert(done.push(row).drop_last() =~= done);
                    lemma_grid_len(done, nx as int, ny as int);
                }
                if x >= 0 && y >= 0 && (x as u64) < (nx as u64) && (y as u64) < (ny as u64) {
                    let xu = x as usize;
                    let yu = y as usize;
                    proof {
                        lemma_cell_index(x as int, y as int, nx as int, ny as int);
                    }
                    let idx = yu * nx + xu;
                    let id: i32 = if cid >= -2147483648 && cid <= 2147483647 { cid as i32 } else { -1 };
                    grid.set(idx, id);
                    let ghost before = lists_view(pixels@);
                    let mut list = match pixels.remove(&cid) {
                        Some(v) => v,
                        None => Vec::new(),
                    };
                    list.push((#[verifier::truncate] (x as u32), #[verifier::truncate] (y as u32)));
                    pixels.insert(cid, list);
                    proof {
                        assert(lists_view(pixels@) =~= before.insert(
                            cid,
                            (if before.contains_key(cid) {
                                before[cid]
                            } else {
                                Seq::empty()
                            }).push(pixel_of(row)),
                        ));
                    }
                }
                proof {
                    done = done.push(row);
                }
            },
        }
        n = n + 1;
    }
    proof {
        if ls.len() > 0 {
            assert(ls.skip(n as int) =~= Seq::<Seq<char>>::empty());
        }
        if all is Ok {
            assert(done + Seq::empty() =~= done);
        }
    }
    Ok((grid, pixels))
}


// ---------------------------------------------------------------------------
// The catalog
// ---------------------------------------------------------------------------

/// The catalog: properties keyed by clump id, a row-major `ny × nx`
/// pixel-to-clump grid (`-1` = no clump), and each clump's pixels.
#[derive(Debug)]
pub struct ClumpCatalog {
    nx: usize,
    ny: usize,
    props: BTreeMap<i64, ClumpProperties>,
    pixel_clump: Vec<i32>,
    pixels: BTreeMap<i64, Vec<(u32, u32)>>,
}

/// A hull boundary closed into a loop: its first vertex repeated at the end.
pub open spec fn closed_loop(h: Seq<(u32, u32)>) -> Seq<(u32, u32)> {
    if h.len() > 0 {
        h.push(h[0])
    } else {
        h
    }
}

spec fn ord_less<K: Ord>(a: K, b: K) -> bool {
    a.cmp_spec(&b) is Less
}

proof fn lemma_increasing_keys(keys: Seq<&i64>)
    requires
        vstd::std_specs::btree::increasing_seq(keys),
    ensures
        forall|i: int, j: int| 0 <= i < j < keys.len() ==> *keys[i] < *keys[j],
{
    assert(vstd::laws_cmp::obeys_cmp::<i64>());
    assert(vstd::laws_cmp::obeys_cmp::<&i64>());
    assert forall|i: int, j: int| 0 <= i < j < keys.len() implies *keys[i] < *keys[j] by {
        assert(ord_less::<&i64>(keys[i], keys[j]));
    }
}

impl ClumpCatalog {
    /// Each clump's properties, keyed by clump id.
    pub closed spec fn properties_view(&self) -> Map<i64, PropsView> {
        props_view(self.props@)
    }

    /// The row-major pixel-to-clump grid.
    pub closed spec fn grid(&self) -> Seq<i32> {
        self.pixel_clump@
    }

    /// Each clump's pixels, in file order.
    pub closed spec fn pixel_lists(&self) -> Map<i64, Seq<(u32, u32)>> {
        lists_view(self.pixels@)
    }

    /// The grid's width.
    pub closed spec fn width(&self) -> usize {
        self.nx
    }

    /// The grid's height.
    pub closed spec fn height(&self) -> usize {
        self.ny
    }

    /// The grid has one cell per pixel, each clump's properties are stored
    /// under its own id, and the grid and the pixel lists are what some
    /// sequence of pixel rows gives.
    pub closed spec fn wf(&self) -> bool {
        &&& self.pixel_clump@.len() == self.nx * self.ny
        &&& self.nx * self.ny <= usize::MAX
        &&& forall|k: i64| #[trigger]
            props_view(self.props@).contains_key(k) ==> props_view(self.props@)[k].clump_id == k
        &&& exists|rows: Seq<(i64, i64, i64)>|
            self.pixel_clump@ == grid_after(rows, self.nx as int, self.ny as int) && #[trigger] lists_view(
                self.pixels@,
            ) == lists_after(rows, self.nx as int, self.ny as int)
    }

    /// Each clump's properties are stored under its own id.
    pub proof fn lemma_properties_under_their_id(&self)
        requires
            self.wf(),
        ensures
            forall|k: i64| #[trigger]
                self.properties_view().contains_key(k) ==> self.properties_view()[k].clump_id == k,
    {
    }

    /// A pixel whose grid cell names a clump is in the pixel list of a clump
    /// with that grid id.
    pub proof fn lemma_pixel_hit_is_listed(&self, x: usize, y: usize)
        requires
            self.wf(),
            x < self.width() <= 0x1_0000_0000,
            y < self.height() <= 0x1_0000_0000,
            self.grid()[y * self.width() + x] != -1,
        ensures
            exists|cid: i64|
                #![trigger self.pixel_lists()[cid]]
                self.pixel_lists().contains_key(cid) && self.pixel_lists()[cid].contains(
                    (x as u32, y as u32),
                ) && grid_id(cid) == self.grid()[y * self.width() + x],
    {
        let rows = choose|rows: Seq<(i64, i64, i64)>|
            self.pixel_clump@ == grid_after(rows, self.nx as int, self.ny as int) && #[trigger] lists_view(
                self.pixels@,
            ) == lists_after(rows, self.nx as int, self.ny as int);
        lemma_grid_cell_listed(rows, self.nx as int, self.ny as int, x as int, y as int);
        let m = lists_after(rows, self.nx as int, self.ny as int);
        let cid = choose|cid: i64|
            #![trigger m[cid]]
            m.contains_key(cid) && m[cid].contains((x as u32, y as u32)) && grid_id(cid)
                == grid_after(rows, self.nx as int, self.ny as int)[y * self.nx + x];
        assert(self.pixel_lists() == m);
        assert(self.pixel_lists()[cid] == m[cid]);
    }

    /// Every listed pixel of every clump lies inside the grid, and every
    /// listed clump has a pixel.
    pub proof fn lemma_listed_pixels_inside(&self)
        requires
            self.wf(),
            self.width() <= 0x1_0000_0000,
            self.height() <= 0x1_0000_0000,
        ensures
            forall|cid: i64| #[trigger]
                self.pixel_lists().contains_key(cid) ==> self.pixel_lists()[cid].len() > 0,
            forall|cid: i64, j: int|
                self.pixel_lists().contains_key(cid) && 0 <= j < self.pixel_lists()[cid].len()
                    ==> (#[trigger] self.pixel_lists()[cid][j]).0 < self.width() && self.pixel_lists()[cid][j].1
                    < self.height(),
    {
        let rows = choose|rows: Seq<(i64, i64, i64)>|
            self.pixel_clump@ == grid_after(rows, self.nx as int, self.ny as int) && #[trigger] lists_view(
                self.pixels@,
            ) == lists_after(rows, self.nx as int, self.ny as int);
        lemma_listed_pixels_in_grid(rows, self.nx as int, self.ny as int);
    }

    /// Builds the catalog from the two CSV texts: properties from the file at
    /// `properties_path`, pixel assignments from the file at `pixels_path`,
    /// for an `nx × ny` cube. The property file is read first; its error, if
    /// any, is the one returned.
    pub fn load(
        properties_path: &str,
        properties_csv: &str,
        pixels_path: &str,
        pixels_csv: &str,
        nx: usize,
        ny: usize,
    ) -> (r: Result<Self, ClumpError>)
        requires
            nx * ny <= usize::MAX,
        ensures
            match r {
                Ok(cat) => {
                    &&& cat.wf()
                    &&& cat.width() == nx && cat.height() == ny
                    &&& properties_of(properties_csv@) is Ok
                    &&& cat.properties_view() == properties_of(properties_csv@)->Ok_0
                    &&& pixel_rows_of(pixels_csv@) is Ok
                    &&& cat.grid() == grid_after(pixel_rows_of(pixels_csv@)->Ok_0, nx as int, ny as int)
                    &&& cat.pixel_lists() == lists_after(pixel_rows_of(pixels_csv@)->Ok_0, nx as int, ny as int)
                },
                Err(e) => match properties_of(properties_csv@) {
                    Err(issue) => reports(e, properties_path@, issue),
                    Ok(_) => pixel_rows_of(pixels_csv@) is Err && reports(
                        e,
                        pixels_path@,
                        pixel_rows_of(pixels_csv@)->Err_0,
                    ),
                },
            },
    {
        let props = match read_properties(properties_path, properties_csv) {
            Ok(m) => m,
            Err(e) => {
                return Err(e);
            },
        };
        let (pixel_clump, pixels) = match read_pixels(pixels_path, pixels_csv, nx, ny) {
            Ok(v) => v,
            Err(e) => {
                return Err(e);
            },
        };
        proof {
            lemma_grid_len(pixel_rows_of(pixels_csv@)->Ok_0, nx as int, ny as int);
        }
        let cat = ClumpCatalog { nx, ny, props, pixel_clump, pixels };
        proof {
            lemma_properties_keyed_by_id(properties_csv@);
            let rows = pixel_rows_of(pixels_csv@)->Ok_0;
            assert(lists_view(cat.pixels@) == lists_after(rows, nx as int, ny as int));
        }
        Ok(cat)
    }

    /// The grid's width.
    pub fn nx(&self) -> (r: usize)
        ensures
            r == self.width(),
    {
        self.nx
    }

    /// The grid's height.
    pub fn ny(&self) -> (r: usize)
        ensures
            r == self.height(),
    {
        self.ny
    }

    /// The clump ids that have properties, in increasing order.
    pub fn ids(&self) -> (r: Vec<i64>)
        ensures
            r@.to_set() == self.properties_view().dom(),
            forall|i: int, j: int| 0 <= i < j < r@.len() ==> r@[i] < r@[j],
    {
        let mut v: Vec<i64> = Vec::new();
        let ghost keys = vstd::std_specs::btree::spec_keys_iter(&self.props).remaining();
        for k in it: self.props.keys()
            invariant
                it.seq() == keys,
                v@.len() == it.index(),
                forall|i: int| 0 <= i < it.index() ==> v@[i] == *keys[i],
        {
            v.push(*k);
        }
        proof {
            assert(v@ =~= keys.unref());
            lemma_increasing_keys(keys);
            assert(self.properties_view().dom() =~= self.props@.dom());
        }
        v
    }

    /// The properties of clump `id`, if the property file listed it.
    pub fn properties(&self, id: i64) -> (r: Option<&ClumpProperties>)
        ensures
            match r {
                Some(p) => self.properties_view().contains_key(id) && p@ == self.properties_view()[id],
                None => !self.properties_view().contains_key(id),
            },
    {
        self.props.get(&id)
    }

    /// The clump id at pixel `(x, y)`, or `None` if the pixel is empty or
    /// outside the grid.
    pub fn id_at_pixel(&self, x: usize, y: usize) -> (r: Option<i64>)
        requires
            self.wf(),
        ensures
            x >= self.width() || y >= self.height() ==> r is None,
            x < self.width() && y < self.height() ==> r == (if self.grid()[y * self.width() + x] == -1 {
                None
            } else {
                Some(self.grid()[y * self.width() + x] as i64)
            }),
    {
        if x >= self.nx || y >= self.ny {
            return None;
        }
        proof {
            lemma_cell_index(x as int, y as int, self.nx as int, self.ny as int);
            assert(y * self.nx + x < self.pixel_clump@.len());
        }
        let v = self.pixel_clump[y * self.nx + x];
        if v == -1 {
            None
        } else {
            Some(v as i64)
        }
    }

    /// The row-major pixel-to-clump grid (`-1` = no clump).
    pub fn pixel_clump_grid(&self) -> (r: &[i32])
        ensures
            r@ == self.grid(),
    {
        self.pixel_clump.as_slice()
    }

    /// The closed convex-hull boundary of clump `id` in pixel coordinates (the
    /// first vertex repeated at the end); empty for a clump without pixels.
    pub fn boundary(&self, id: i64) -> (r: Vec<(u32, u32)>)
        ensures
            !self.pixel_lists().contains_key(id) ==> r@.len() == 0,
            self.pixel_lists().contains_key(id) ==> exists|h: Seq<(u32, u32)>|
                is_hull_of(h, self.pixel_lists()[id]) && #[trigger] closed_loop(h) == r@,
    {
        match self.pixels.get(&id) {
            None => {
                proof {
                    assert(!self.pixel_lists().contains_key(id));
                }
                Vec::new()
            },
            Some(px) => {
                let mut hull = convex_hull(px.as_slice());
                let ghost h = hull@;
                if hull.len() > 0 {
                    let first = hull[0];
                    hull.push(first);
                }
                proof {
                    assert(self.pixel_lists()[id] == px@);
                    assert(closed_loop(h) == hull@);
                }
                hull
            },
        }
    }
}

} // verus!
