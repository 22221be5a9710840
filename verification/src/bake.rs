//! What the bake step writes besides the flux planes: the pixel→clump grid as
//! little-endian 32-bit integers, and the site-relative paths of the files.

use vstd::prelude::*;

use crate::text::{chars_of, string_from_chars};

verus! {

/// Byte `k` (0 = least significant) of the 32-bit word `w`.
pub open spec fn byte_of(w: u32, k: int) -> int {
    let v = w as int;
    if k == 0 {
        v % 256
    } else if k == 1 {
        (v / 256) % 256
    } else if k == 2 {
        (v / 65536) % 256
    } else {
        v / 16777216
    }
}

/// The grid as little-endian bytes, four per cell: cell `i` fills bytes
/// `4i .. 4i+4`, least significant first, of its two's-complement word.
pub fn pixmap_bytes(grid: &[i32]) -> (out: Vec<u8>)
    ensures
        out@.len() == 4 * grid@.len(),
        forall|i: int, k: int|
            0 <= i < grid@.len() && 0 <= k < 4 ==> #[trigger] out@[4 * i + k] == byte_of(
                grid@[i] as u32,
                k,
            ),
{
    let mut out: Vec<u8> = Vec::new();
    let mut i: usize = 0;
    while i < grid.len()
        invariant
            i <= grid@.len(),
            out@.len() == 4 * i,
            forall|p: int, k: int|
                0 <= p < i && 0 <= k < 4 ==> #[trigger] out@[4 * p + k] == byte_of(
                    grid@[p] as u32,
                    k,
                ),
        decreases grid.len() - i,
    {
        let w: u32 = grid[i] as u32;
        out.push((w % 256) as u8);
        out.push(((w / 256) % 256) as u8);
        out.push(((w / 65536) % 256) as u8);
        out.push((w / 16777216) as u8);
        proof {
            assert forall|p: int, k: int| 0 <= p < i + 1 && 0 <= k < 4 implies #[trigger] out@[4 * p
                + k] == byte_of(grid@[p] as u32, k) by {
                if p == i {
                    assert(k == 0 || k == 1 || k == 2 || k == 3);
                }
            }
        }
        i = i + 1;
    }
    out
}

/// The four little-endian bytes of a word give the word back.
pub proof fn lemma_bytes_give_word(w: u32)
    ensures
        byte_of(w, 0) + 256 * byte_of(w, 1) + 65536 * byte_of(w, 2) + 16777216 * byte_of(w, 3)
            == w,
        forall|k: int| 0 <= k < 4 ==> 0 <= #[trigger] byte_of(w, k) < 256,
{
    assert(byte_of(w, 0) + 256 * byte_of(w, 1) + 65536 * byte_of(w, 2) + 16777216 * byte_of(w, 3)
        == w) by (nonlinear_arith)
        requires
            byte_of(w, 0) == w % 256,
            byte_of(w, 1) == (w / 256) % 256,
            byte_of(w, 2) == (w / 65536) % 256,
            byte_of(w, 3) == w / 16777216,
            0 <= w < 4294967296,
    ;
}

/// The path of `file` relative to the site root: `dataset/cube/file`.
pub fn asset_path(dataset: &str, cube: &str, file: &str) -> (r: String)
    ensures
        r@ == dataset@ + seq!['/'] + cube@ + seq!['/'] + file@,
{
    let mut cs = chars_of(dataset);
    cs.push('/');
    let c = chars_of(cube);
    let f = chars_of(file);
    let mut k: usize = 0;
    let ghost base = cs@;
    while k < c.len()
        invariant
            k <= c@.len(),
            cs@ == base + c@.take(k as int),
        decreases c.len() - k,
    {
        cs.push(c[k]);
        k = k + 1;
        proof {
            assert(cs@ =~= base + c@.take(k as int));
        }
    }
    proof {
        assert(c@.take(c@.len() as int) =~= c@);
    }
    cs.push('/');
    let ghost base2 = cs@;
    let mut k: usize = 0;
    while k < f.len()
        invariant
            k <= f@.len(),
            cs@ == base2 + f@.take(k as int),
        decreases f.len() - k,
    {
        cs.push(f[k]);
        k = k + 1;
        proof {
            assert(cs@ =~= base2 + f@.take(k as int));
        }
    }
    proof {
        assert(f@.take(f@.len() as int) =~= f@);
        assert(cs@ =~= dataset@ + seq!['/'] + cube@ + seq!['/'] + file@);
    }
    string_from_chars(cs.as_slice())
}

/// The file name of a filter's flux plane: the filter name and `.f32`.
pub fn plane_file_name(filter: &str) -> (r: String)
    ensures
        r@ == filter@ + seq!['.', 'f', '3', '2'],
{
    let mut cs = chars_of(filter);
    cs.push('.');
    cs.push('f');
    cs.push('3');
    cs.push('2');
    proof {
        assert(cs@ =~= filter@ + seq!['.', 'f', '3', '2']);
    }
    string_from_chars(cs.as_slice())
}

// ---------------------------------------------------------------------------
// File names
// ---------------------------------------------------------------------------

/// The position of the last `'.'` in `name`, if there is one.
pub open spec fn last_dot(name: Seq<char>) -> Option<int>
    decreases name.len(),
{
    if name.len() == 0 {
        None
    } else if name.last() == '.' {
        Some(name.len() - 1)
    } else {
        last_dot(name.drop_last())
    }
}

/// The extension of a file name, as `Path::extension` gives it: what follows
/// the last `'.'`, unless that dot is the name's first character or there is
/// none.
pub open spec fn extension_of(name: Seq<char>) -> Option<Seq<char>> {
    match last_dot(name) {
        Some(i) => if i > 0 {
            Some(name.skip(i + 1))
        } else {
            None
        },
        None => None,
    }
}

/// The stem of a file name, as `Path::file_stem` gives it: what precedes the
/// last `'.'`, or the whole name when the extension is absent.
pub open spec fn stem_of(name: Seq<char>) -> Seq<char> {
    match last_dot(name) {
        Some(i) => if i > 0 {
            name.take(i)
        } else {
            name
        },
        None => name,
    }
}

fn find_last_dot(cs: &Vec<char>) -> (r: Option<usize>)
    ensures
        match r {
            Some(i) => last_dot(cs@) == Some(i as int) && i < cs@.len(),
            None => last_dot(cs@) is None,
        },
{
    let mut k: usize = cs.len();
    proof {
        assert(cs@.take(cs@.len() as int) =~= cs@);
    }
    while k > 0
        invariant
            k <= cs@.len(),
            last_dot(cs@) == last_dot(cs@.take(k as int)),
        decreases k,
    {
        proof {
            assert(cs@.take(k as int).drop_last() =~= cs@.take(k - 1));
        }
        if cs[k - 1] == '.' {
            return Some(k - 1);
        }
        k = k - 1;
    }
    None
}

/// Whether a directory entry named `name` is a FITS cube: its extension is
/// `fits`.
pub fn is_fits_file_name(name: &str) -> (r: bool)
    ensures
        r == (extension_of(name@) == Some(seq!['f', 'i', 't', 's'])),
{
    let cs = chars_of(name);
    proof {
        assert(cs@.take(cs@.len() as int) =~= cs@);
    }
    match find_last_dot(&cs) {
        Some(i) => {
            if i == 0 || cs.len() - i != 5 {
                proof {
                    if i > 0 {
                        assert(cs@.skip(i + 1).len() != 4);
                    }
                }
                return false;
            }
            let ok = cs[i + 1] == 'f' && cs[i + 2] == 'i' && cs[i + 3] == 't' && cs[i + 4] == 's';
            proof {
                let e = cs@.skip(i + 1);
                if ok {
                    assert(e =~= seq!['f', 'i', 't', 's']);
                } else {
                    assert(e[0] != 'f' || e[1] != 'i' || e[2] != 't' || e[3] != 's');
                }
            }
            ok
        },
        None => false,
    }
}

/// The name a cube gets from its file name: the file's stem.
pub fn cube_name_of(file_name: &str) -> (r: String)
    ensures
        r@ == stem_of(file_name@),
{
    let cs = chars_of(file_name);
    proof {
        assert(cs@.take(cs@.len() as int) =~= cs@);
    }
    match find_last_dot(&cs) {
        Some(i) => {
            if i == 0 {
                return string_from_chars(cs.as_slice());
            }
            let mut out: Vec<char> = Vec::new();
            let mut k: usize = 0;
            while k < i
                invariant
                    k <= i,
                    i <= cs@.len(),
                    out@ == cs@.take(k as int),
                decreases i - k,
            {
                out.push(cs[k]);
                k = k + 1;
                proof {
                    assert(out@ =~= cs@.take(k as int));
                }
            }
            string_from_chars(out.as_slice())
        },
        None => string_from_chars(cs.as_slice()),
    }
}

} // verus!
