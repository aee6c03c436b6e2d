use vstd::prelude::*;

verus! {

/// What a render draws for each sampled pixel.
#[derive(Clone, Copy, Debug, PartialEq, Eq, Structural)]
pub enum RenderMode {
    /// Density and pressure of the disk in its equatorial plane.
    EquatorialSlice,
    /// A checkerboard on the local sky, showing the camera's lens distortion.
    LensDistortion,
    /// Straight rays from the camera, without relativity.
    NonRelativistic,
    /// The canonical momenta of each ray.
    Momenta,
    /// Photon geodesics in the equatorial plane, plotted into the image.
    EquatorialGeodesics,
    /// Rays marched along their geodesics through the disk.
    Full,
}

/// The mode a render name selects; any other name selects the full render.
pub open spec fn mode_for_name(name: Seq<char>) -> RenderMode {
    if name == "slice"@ {
        RenderMode::EquatorialSlice
    } else if name == "distortion"@ {
        RenderMode::LensDistortion
    } else if name == "vp_nonrel"@ {
        RenderMode::NonRelativistic
    } else if name == "momenta"@ {
        RenderMode::Momenta
    } else if name == "eq_geodesics"@ {
        RenderMode::EquatorialGeodesics
    } else {
        RenderMode::Full
    }
}

/// Selects the render mode from its name, checking the names in the order the renderer
/// tests its modes.
pub fn render_mode(name: &String) -> (r: RenderMode)
    ensures
        r == mode_for_name(name@),
        (r == RenderMode::EquatorialSlice) <==> name@ == "slice"@,
        (r == RenderMode::LensDistortion) <==> name@ == "distortion"@,
        (r == RenderMode::NonRelativistic) <==> name@ == "vp_nonrel"@,
        (r == RenderMode::Momenta) <==> name@ == "momenta"@,
        (r == RenderMode::EquatorialGeodesics) <==> name@ == "eq_geodesics"@,
        (r == RenderMode::Full) <==> (name@ != "slice"@ && name@ != "distortion"@ && name@ != "vp_nonrel"@
            && name@ != "momenta"@ && name@ != "eq_geodesics"@),
{
    proof {
        reveal_strlit("slice");
        reveal_strlit("distortion");
        reveal_strlit("vp_nonrel");
        reveal_strlit("momenta");
        reveal_strlit("eq_geodesics");
        assert("slice"@.len() == 5);
        assert("distortion"@.len() == 10);
        assert("vp_nonrel"@.len() == 9);
        assert("momenta"@.len() == 7);
        assert("eq_geodesics"@.len() == 12);
    }
    if *name == String::from_str("slice") {
        RenderMode::EquatorialSlice
    } else if *name == String::from_str("distortion") {
        RenderMode::LensDistortion
    } else if *name == String::from_str("vp_nonrel") {
        RenderMode::NonRelativistic
    } else if *name == String::from_str("momenta") {
        RenderMode::Momenta
    } else if *name == String::from_str("eq_geodesics") {
        RenderMode::EquatorialGeodesics
    } else {
        RenderMode::Full
    }
}

/// Whether the checkerboard tile at column `i`, row `j` is a light one: the tile indices sum
/// to an even number. The sum must fit in a `u32`.
pub fn checkerboard_tile(i: u32, j: u32) -> (r: bool)
    requires
        i + j <= u32::MAX,
    ensures
        r == ((i + j) % 2 == 0),
{
    (i + j) % 2 == 0
}

/// The image pixel that a point of an equatorial geodesic lands on: the image centre at
/// `(512, 512)` plus the point's offset `(dx, dy)`, or `None` when that lies outside a
/// `width` by `height` image. The sums must fit in an `i32`.
pub fn geodesic_pixel(dx: i32, dy: i32, width: u32, height: u32) -> (r: Option<(u32, u32)>)
    requires
        512 + dx <= i32::MAX,
        512 + dy <= i32::MAX,
    ensures
        r matches Some(p) ==> p.0 == 512 + dx && p.1 == 512 + dy,
        r is Some <==> (0 <= 512 + dx < width && 0 <= 512 + dy < height),
{
    let x = 512 + dx;
    let y = 512 + dy;
    if x < 0 || x as u32 >= width || y < 0 || y as u32 >= height {
        None
    } else {
        Some((x as u32, y as u32))
    }
}

} // verus!
