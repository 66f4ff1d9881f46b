//! The color stage of developing a photo.
use vstd::prelude::*;
use crate::cube::{parse_cube, cube_error, cube_table, scan_cube, LutError};
use crate::lut3d::{interp_8_tetrahedral, tetra_sample, LUT3DContext};

verus! {

/// Recolors a decoded buffer of `width` pixels per row and `colors`
/// components per pixel through the `.cube` table in `cube`, if one is
/// given. Without a table the buffer comes back unchanged; a table that
/// cannot be read stops the stage with its error.
pub fn apply_color_table(data: Vec<u8>, width: i32, colors: i32, cube: Option<&[u8]>) -> (r: Result<
    Vec<u8>,
    LutError,
>)
    requires
        width >= 1,
        colors >= 3,
        data@.len() % ((width * colors) as nat) == 0,
    ensures
        match cube {
            None => r == Ok::<Vec<u8>, LutError>(data),
            Some(t) => match r {
                Ok(out) => cube_error(scan_cube(t@)) is None && exists|lut: LUT3DContext|
                    cube_table(t@, &lut) && out@.len() == data@.len() && forall|i: int|
                        0 <= i < out@.len() ==> out@[i] == tetra_sample(
                            &lut,
                            data@,
                            colors as int,
                            i,
                        ),
                Err(e) => cube_error(scan_cube(t@)) == Some(e),
            },
        },
{
    match cube {
        None => Ok(data),
        Some(t) => match parse_cube(t) {
            Ok(lut) => {
                let ghost g = lut;
                let out = interp_8_tetrahedral(lut, data, width, colors);
                assert(cube_table(t@, &g));
                Ok(out)
            },
            Err(e) => Err(e),
        },
    }
}

/// The encoding a finished photo is written in.
#[derive(Clone, Copy, Debug, PartialEq, Eq, Structural)]
pub enum OutputFormat {
    Webp,
    Jpeg,
    /// Anything else: left to the general image writer.
    Other,
}

/// What follows the last `.` among the first `i` bytes of `s`, to the end of
/// `s`; all of `s` when there is no `.` there.
pub open spec fn after_last_dot(s: Seq<u8>, i: int) -> Seq<u8>
    decreases i,
{
    if i <= 0 {
        s
    } else if s[i - 1] == 46 {
        s.subrange(i, s.len() as int)
    } else {
        after_last_dot(s, i - 1)
    }
}

/// A file name's extension: what follows its last `.`, or the whole name.
pub open spec fn extension(s: Seq<u8>) -> Seq<u8> {
    after_last_dot(s, s.len() as int)
}

/// The format named by the output path's extension: `webp`, `jpg`, or other.
pub fn output_format(path: &[u8]) -> (r: OutputFormat)
    ensures
        r == (if extension(path@) == seq![119u8, 101u8, 98u8, 112u8] {
            OutputFormat::Webp
        } else if extension(path@) == seq![106u8, 112u8, 103u8] {
            OutputFormat::Jpeg
        } else {
            OutputFormat::Other
        }),
{
    let n = path.len();
    let mut i: usize = n;
    while i > 0 && path[i - 1] != 46
        invariant
            i <= n,
            n == path@.len(),
            extension(path@) == after_last_dot(path@, i as int),
        decreases i,
    {
        i = i - 1;
    }
    let start: usize = if i == 0 { 0 } else { i };
    let ghost ext = extension(path@);
    assert(ext =~= path@.subrange(start as int, n as int));
    let len = n - start;
    if len == 4 && path[start] == 119 && path[start + 1] == 101 && path[start + 2] == 98
        && path[start + 3] == 112 {
        assert(ext =~= seq![119u8, 101u8, 98u8, 112u8]);
        OutputFormat::Webp
    } else if len == 3 && path[start] == 106 && path[start + 1] == 112 && path[start + 2] == 103 {
        assert(ext =~= seq![106u8, 112u8, 103u8]);
        OutputFormat::Jpeg
    } else {
        proof {
            if ext == seq![119u8, 101u8, 98u8, 112u8] {
                assert(ext[0] == path@[start as int]);
                assert(ext[1] == path@[start + 1]);
                assert(ext[2] == path@[start + 2]);
                assert(ext[3] == path@[start + 3]);
            }
            if ext == seq![106u8, 112u8, 103u8] {
                assert(ext[0] == path@[start as int]);
                assert(ext[1] == path@[start + 1]);
                assert(ext[2] == path@[start + 2]);
            }
        }
        OutputFormat::Other
    }
}

} // verus!
