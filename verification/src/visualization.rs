//! Marking keypoints on an image.
use vstd::prelude::*;
use vstd::arithmetic::div_mod::{lemma_fundamental_div_mod, lemma_fundamental_div_mod_converse};
use crate::canvas::{
    buffer_dimensions, buffer_draw_segment, buffer_fill_circle, buffer_get_pixel, buffer_put_pixel,
    drawable, fills, pixels_of, shape_of, with_disc, with_segment, Canvas, Color,
    MAX_DRAW_COORDINATE,
};
use crate::config::VisualizationConfig;
use crate::error::SuperPointError;
use crate::keypoint::Keypoint;

verus! {

/// The colour of the lines between matching keypoints.
pub const LINK_COLOR: Color = (0, 255, 0);

/// The pixel that a coordinate falls on: the nearest one, a half going up.
pub open spec fn pixel_of(coordinate: u128) -> int {
    (coordinate + 32768) / 65536
}

/// Whether a keypoint falls on a pixel of an image of the given shape.
pub open spec fn visible(k: Keypoint, shape: (u32, u32)) -> bool {
    pixel_of(k.x) < shape.0 && pixel_of(k.y) < shape.1
}

/// How far the arms of a marker's cross reach from its centre: half the
/// circle's radius, and one pixel at least.
pub open spec fn cross_reach(radius: u32) -> int {
    if radius / 2 >= 1 {
        radius as int / 2
    } else {
        1
    }
}

/// Whether the pixel in column `col` of row `row` lies on the cross around
/// `(x, y)`.
pub open spec fn on_cross(col: int, row: int, x: int, y: int, reach: int) -> bool {
    (row == y && x - reach <= col <= x + reach) || (col == x && y - reach <= row <= y + reach)
}

/// The pixels with a cross around `(x, y)` painted over them.
pub open spec fn with_cross(pixels: Seq<Color>, width: int, x: int, y: int, reach: int, color: Color) -> Seq<Color> {
    Seq::new(
        pixels.len(),
        |p: int|
            if on_cross(p % width, p / width, x, y, reach) {
                color
            } else {
                pixels[p]
            },
    )
}

/// Whether a circle of the given radius around the pixel `(x, y)` is one
/// that can be handed on for drawing.
pub open spec fn disc_fits(x: int, y: int, radius: u32) -> bool {
    drawable(x + radius) && drawable(y + radius)
}

/// Whether the circle of the keypoint `k` can be drawn `shift` columns to
/// the right: `k` falls beside an image of shape `bounds`, so that there is
/// nothing to draw, or the circle fits.
pub open spec fn disc_markable(k: Keypoint, bounds: (u32, u32), shift: u32, radius: u32) -> bool {
    visible(k, bounds) ==> disc_fits(pixel_of(k.x) + shift, pixel_of(k.y), radius)
}

/// Whether the circles of all the keypoints can be drawn.
pub open spec fn all_discs_markable(keypoints: Seq<Keypoint>, bounds: (u32, u32), shift: u32, radius: u32) -> bool {
    forall|i: int| 0 <= i < keypoints.len() ==> disc_markable(#[trigger] keypoints[i], bounds, shift, radius)
}

/// Whether the markers of all the keypoints can be drawn on an image of the
/// given shape.
pub open spec fn all_markable(keypoints: Seq<Keypoint>, shape: (u32, u32), radius: u32) -> bool {
    all_discs_markable(keypoints, shape, 0, radius)
}

/// The pixels with the marker of one keypoint painted over them: a filled
/// circle and over it a cross, if the keypoint falls on the image, and
/// nothing if it does not.
pub open spec fn with_marker(pixels: Seq<Color>, shape: (u32, u32), k: Keypoint, radius: u32, color: Color) -> Seq<Color> {
    if visible(k, shape) {
        with_cross(
            with_disc(pixels, shape, (pixel_of(k.x) as i32, pixel_of(k.y) as i32), radius as i32, color),
            shape.0 as int,
            pixel_of(k.x),
            pixel_of(k.y),
            cross_reach(radius),
            color,
        )
    } else {
        pixels
    }
}

/// A colour of the settings as red, green and blue.
pub open spec fn color_of(rgb: [u8; 3]) -> Color {
    (rgb@[0], rgb@[1], rgb@[2])
}

/// The colour of the marker of keypoint `i`: `fixed` if there is one, else
/// red at the level `levels[i]`.
pub open spec fn marker_color(fixed: Option<Color>, levels: Seq<u8>, i: int) -> Color {
    match fixed {
        Some(color) => color,
        None => (levels[i], 0u8, 0u8),
    }
}

/// The pixels with the markers of the keypoints painted over them, one
/// after the other.
pub open spec fn with_markers(
    pixels: Seq<Color>,
    shape: (u32, u32),
    keypoints: Seq<Keypoint>,
    radius: u32,
    fixed: Option<Color>,
    levels: Seq<u8>,
) -> Seq<Color>
    decreases keypoints.len(),
{
    if keypoints.len() == 0 {
        pixels
    } else {
        with_marker(
            with_markers(pixels, shape, keypoints.drop_last(), radius, fixed, levels),
            shape,
            keypoints.last(),
            radius,
            marker_color(fixed, levels, keypoints.len() - 1),
        )
    }
}

/// The larger of two heights.
pub open spec fn taller(a: u32, b: u32) -> u32 {
    if a >= b {
        a
    } else {
        b
    }
}

/// Whether two images of these shapes can be set side by side: the joined
/// width is one that an image can have, and a vector holds the joined image.
pub open spec fn joinable(first: (u32, u32), second: (u32, u32)) -> bool {
    &&& first.0 + second.0 <= u32::MAX
    &&& 3 * (first.0 + second.0) <= usize::MAX
    &&& 3 * ((first.0 + second.0) * taller(first.1, second.1)) <= isize::MAX
}

/// Whether the pair names a keypoint of either list.
pub open spec fn links(pair: (usize, usize), first: Seq<Keypoint>, second: Seq<Keypoint>) -> bool {
    pair.0 < first.len() && pair.1 < second.len()
}

/// Whether the line from where `a` falls to where `b` falls, `shift` columns
/// to the right, is one that can be handed on for drawing.
pub open spec fn link_fits(a: Keypoint, b: Keypoint, shift: u32) -> bool {
    &&& drawable(pixel_of(a.x))
    &&& drawable(pixel_of(a.y))
    &&& drawable(pixel_of(b.x) + shift)
    &&& drawable(pixel_of(b.y))
}

/// Whether the line of every pair that names a keypoint of either list can
/// be drawn.
pub open spec fn all_links_fit(first: Seq<Keypoint>, second: Seq<Keypoint>, shift: u32, matches: Seq<(usize, usize)>) -> bool {
    forall|i: int| 0 <= i < matches.len() && links(#[trigger] matches[i], first, second) ==> link_fits(
        first[matches[i].0 as int],
        second[matches[i].1 as int],
        shift,
    )
}

/// A black image of the given number of pixels.
pub open spec fn black(count: int) -> Seq<Color> {
    Seq::new(count as nat, |p: int| (0u8, 0u8, 0u8))
}

/// The image `base` of the given width with the first `count` pixels of
/// `source`, counted row by row, copied onto it `shift` columns to the right
/// of where they are in `source`.
pub open spec fn pasted_upto(base: Seq<Color>, width: int, source: Seq<Color>, source_width: int, shift: int, count: int) -> Seq<Color> {
    Seq::new(
        base.len(),
        |p: int|
            {
                let col = p % width - shift;
                let row = p / width;
                if 0 <= col < source_width && row * source_width + col < count {
                    source[row * source_width + col]
                } else {
                    base[p]
                }
            },
    )
}

/// The image `base` of the given width with the image `source` copied onto
/// it, `shift` columns to the right.
pub open spec fn pasted(base: Seq<Color>, width: int, source: Seq<Color>, source_width: int, shift: int) -> Seq<Color> {
    pasted_upto(base, width, source, source_width, shift, source.len() as int)
}

/// Two images side by side on black, the first one on the left.
pub open spec fn side_by_side(first: Seq<Color>, first_shape: (u32, u32), second: Seq<Color>, second_shape: (u32, u32)) -> Seq<Color> {
    let width = first_shape.0 + second_shape.0;
    let height = taller(first_shape.1, second_shape.1);
    pasted(
        pasted(black(width * height), width, first, first_shape.0 as int, 0),
        width,
        second,
        second_shape.0 as int,
        first_shape.0 as int,
    )
}

/// The pixels with a filled circle painted over them for each keypoint that
/// falls on an image of shape `bounds`, `shift` columns to the right of
/// where the keypoint falls.
pub open spec fn with_discs(
    pixels: Seq<Color>,
    shape: (u32, u32),
    keypoints: Seq<Keypoint>,
    bounds: (u32, u32),
    shift: u32,
    radius: u32,
    color: Color,
) -> Seq<Color>
    decreases keypoints.len(),
{
    if keypoints.len() == 0 {
        pixels
    } else {
        let rest = with_discs(pixels, shape, keypoints.drop_last(), bounds, shift, radius, color);
        let k = keypoints.last();
        if visible(k, bounds) {
            with_disc(rest, shape, ((pixel_of(k.x) + shift) as i32, pixel_of(k.y) as i32), radius as i32, color)
        } else {
            rest
        }
    }
}

/// The pixels with a line painted over them for each pair of `matches` that
/// names a keypoint of `first` and one of `second`: from where the one
/// falls to where the other falls, `shift` columns to the right.
pub open spec fn with_links(
    pixels: Seq<Color>,
    shape: (u32, u32),
    first: Seq<Keypoint>,
    second: Seq<Keypoint>,
    shift: u32,
    matches: Seq<(usize, usize)>,
) -> Seq<Color>
    decreases matches.len(),
{
    if matches.len() == 0 {
        pixels
    } else {
        let rest = with_links(pixels, shape, first, second, shift, matches.drop_last());
        let pair = matches.last();
        if links(pair, first, second) {
            with_segment(
                rest,
                shape,
                (pixel_of(first[pair.0 as int].x) as i32, pixel_of(first[pair.0 as int].y) as i32),
                (
                    (pixel_of(second[pair.1 as int].x) + shift) as i32,
                    pixel_of(second[pair.1 as int].y) as i32,
                ),
                LINK_COLOR,
            )
        } else {
            rest
        }
    }
}

/// The message for a circle or a line that cannot be handed on for drawing.
pub open spec fn range_message() -> Seq<char> {
    "A keypoint lies outside the range that can be drawn"@
}

/// The message for red levels that do not match the keypoints.
pub open spec fn levels_message() -> Seq<char> {
    "Expected one red level for each keypoint"@
}

/// The message for two images too large to join.
pub open spec fn joined_size_message() -> Seq<char> {
    "Combined image is too large"@
}

/// Draws keypoints the way one set of settings says.
pub struct Visualizer {
    config: VisualizationConfig,
}

impl Visualizer {
    pub closed spec fn spec_config(&self) -> VisualizationConfig {
        self.config
    }

    pub fn new(config: VisualizationConfig) -> (visualizer: Visualizer)
        ensures
            visualizer.spec_config() == config,
    {
        Visualizer { config }
    }

    #[verifier::when_used_as_spec(spec_config)]
    pub fn config(&self) -> (config: VisualizationConfig)
        ensures
            config == self.spec_config(),
    {
        self.config
    }

    /// Paints a marker for each keypoint that falls on the image, in the
    /// colour of the settings. Keypoints with a marker that cannot be handed
    /// on for drawing are refused.
    pub fn draw_keypoints(&self, image: Canvas, keypoints: &[Keypoint]) -> (drawn: Result<
        Canvas,
        SuperPointError,
    >)
        ensures
            drawn is Ok <==> all_markable(keypoints@, shape_of(image), self.spec_config().circle_radius),
            drawn matches Ok(canvas) ==> {
                &&& shape_of(canvas) == shape_of(image)
                &&& pixels_of(canvas) == with_markers(
                    pixels_of(image),
                    shape_of(image),
                    keypoints@,
                    self.spec_config().circle_radius,
                    Some(color_of(self.spec_config().circle_color)),
                    Seq::empty(),
                )
            },
            drawn matches Err(e) ==> e matches SuperPointError::ImageProcessing(m) && m@
                == range_message(),
    {
        let radius = self.config.circle_radius;
        let shape = buffer_dimensions(&image);
        if !discs_fit(keypoints, shape, 0, radius) {
            return Err(
                SuperPointError::ImageProcessing(
                    "A keypoint lies outside the range that can be drawn".to_string(),
                ),
            );
        }
        let color = (self.config.circle_color[0], self.config.circle_color[1], self.config.circle_color[2]);
        let levels: Vec<u8> = Vec::new();
        let mut canvas = image;
        draw_markers(&mut canvas, keypoints, radius, Some(color), &levels);
        Ok(canvas)
    }

    /// Paints a marker for each keypoint that falls on the image, in red at
    /// the level given for that keypoint. Levels that are not one for each
    /// keypoint are refused, and so are keypoints with a marker that cannot
    /// be handed on for drawing.
    pub fn draw_keypoints_with_scores(&self, image: Canvas, keypoints: &[Keypoint], levels: &Vec<u8>) -> (drawn: Result<
        Canvas,
        SuperPointError,
    >)
        ensures
            drawn is Ok <==> levels@.len() == keypoints@.len() && all_markable(
                keypoints@,
                shape_of(image),
                self.spec_config().circle_radius,
            ),
            drawn matches Ok(canvas) ==> {
                &&& shape_of(canvas) == shape_of(image)
                &&& pixels_of(canvas) == with_markers(
                    pixels_of(image),
                    shape_of(image),
                    keypoints@,
                    self.spec_config().circle_radius,
                    None,
                    levels@,
                )
            },
            drawn matches Err(e) ==> {
                &&& e matches SuperPointError::ImageProcessing(m)
                &&& m@ == if levels@.len() != keypoints@.len() {
                    levels_message()
                } else {
                    range_message()
                }
            },
    {
        if levels.len() != keypoints.len() {
            return Err(
                SuperPointError::ImageProcessing("Expected one red level for each keypoint".to_string()),
            );
        }
        let radius = self.config.circle_radius;
        let shape = buffer_dimensions(&image);
        if !discs_fit(keypoints, shape, 0, radius) {
            return Err(
                SuperPointError::ImageProcessing(
                    "A keypoint lies outside the range that can be drawn".to_string(),
                ),
            );
        }
        let mut canvas = image;
        draw_markers(&mut canvas, keypoints, radius, None, levels);
        Ok(canvas)
    }

    /// Sets two images side by side on black, paints a filled circle for
    /// each keypoint that falls on its image, and a line for each pair of
    /// `matches` that names a keypoint of either list. Images that cannot be
    /// joined are refused, and so are keypoints with a circle or a line that
    /// cannot be handed on for drawing.
    pub fn draw_keypoint_matches(
        &self,
        image1: &Canvas,
        image2: &Canvas,
        keypoints1: &[Keypoint],
        keypoints2: &[Keypoint],
        matches: &[(usize, usize)],
    ) -> (drawn: Result<Canvas, SuperPointError>)
        ensures
            drawn is Ok <==> {
                &&& joinable(shape_of(*image1), shape_of(*image2))
                &&& all_discs_markable(keypoints1@, shape_of(*image1), 0, self.spec_config().circle_radius)
                &&& all_discs_markable(
                    keypoints2@,
                    shape_of(*image2),
                    shape_of(*image1).0,
                    self.spec_config().circle_radius,
                )
                &&& all_links_fit(keypoints1@, keypoints2@, shape_of(*image1).0, matches@)
            },
            drawn matches Ok(canvas) ==> {
                let shape = (
                    (shape_of(*image1).0 + shape_of(*image2).0) as u32,
                    taller(shape_of(*image1).1, shape_of(*image2).1),
                );
                let color = color_of(self.spec_config().circle_color);
                let radius = self.spec_config().circle_radius;
                let joined = side_by_side(
                    pixels_of(*image1),
                    shape_of(*image1),
                    pixels_of(*image2),
                    shape_of(*image2),
                );
                let one = with_discs(joined, shape, keypoints1@, shape_of(*image1), 0, radius, color);
                let both = with_discs(one, shape, keypoints2@, shape_of(*image2), shape_of(*image1).0, radius, color);
                &&& shape_of(canvas) == shape
                &&& pixels_of(canvas) == with_links(both, shape, keypoints1@, keypoints2@, shape_of(*image1).0, matches@)
            },
            drawn matches Err(e) ==> {
                &&& e matches SuperPointError::ImageProcessing(m)
                &&& m@ == if joinable(shape_of(*image1), shape_of(*image2)) {
                    range_message()
                } else {
                    joined_size_message()
                }
            },
    {
        let radius = self.config.circle_radius;
        let (w1, h1) = buffer_dimensions(image1);
        let (w2, h2) = buffer_dimensions(image2);
        let width: u64 = w1 as u64 + w2 as u64;
        let height: u32 = if h1 >= h2 { h1 } else { h2 };
        if width > u32::MAX as u64 {
            return Err(SuperPointError::ImageProcessing("Combined image is too large".to_string()));
        }
        let mut canvas = match Canvas::blank(width as u32, height) {
            Some(canvas) => canvas,
            None => {
                return Err(SuperPointError::ImageProcessing("Combined image is too large".to_string()));
            },
        };
        if !discs_fit(keypoints1, (w1, h1), 0, radius) || !discs_fit(keypoints2, (w2, h2), w1, radius)
            || !links_fit(keypoints1, keypoints2, w1, matches) {
            return Err(
                SuperPointError::ImageProcessing(
                    "A keypoint lies outside the range that can be drawn".to_string(),
                ),
            );
        }
        assert(pixels_of(canvas) =~= black(width * height));
        let color = (self.config.circle_color[0], self.config.circle_color[1], self.config.circle_color[2]);
        paste(&mut canvas, image1, 0);
        paste(&mut canvas, image2, w1);
        draw_discs(&mut canvas, keypoints1, (w1, h1), 0, radius, color);
        draw_discs(&mut canvas, keypoints2, (w2, h2), w1, radius, color);
        draw_links(&mut canvas, keypoints1, keypoints2, w1, matches);
        Ok(canvas)
    }
}

/// The pixel that a coordinate falls on.
pub fn nearest_pixel(coordinate: u128) -> (pixel: u128)
    ensures
        pixel == pixel_of(coordinate),
{
    let whole: u128 = coordinate / 65536;
    if coordinate % 65536 >= 32768 {
        whole + 1
    } else {
        whole
    }
}

/// Whether a coordinate that is not negative, moved by `shift` and by
/// `radius`, is one that the drawing calls take.
fn reaches(pixel: u128, shift: u32, radius: u32) -> (fits: bool)
    ensures
        fits == drawable(pixel + shift + radius),
{
    pixel <= MAX_DRAW_COORDINATE as u128 && pixel + shift as u128 + radius as u128
        <= MAX_DRAW_COORDINATE as u128
}

/// Whether the circles of all the keypoints can be drawn.
fn discs_fit(keypoints: &[Keypoint], bounds: (u32, u32), shift: u32, radius: u32) -> (fit: bool)
    ensures
        fit == all_discs_markable(keypoints@, bounds, shift, radius),
{
    let mut i: usize = 0;
    while i < keypoints.len()
        invariant
            i <= keypoints@.len(),
            all_discs_markable(keypoints@.take(i as int), bounds, shift, radius),
        decreases keypoints@.len() - i,
    {
        let x = nearest_pixel(keypoints[i].x);
        let y = nearest_pixel(keypoints[i].y);
        if x < bounds.0 as u128 && y < bounds.1 as u128 && !(reaches(x, shift, radius) && reaches(
            y,
            0,
            radius,
        )) {
            assert(!disc_markable(keypoints@[i as int], bounds, shift, radius));
            return false;
        }
        assert forall|j: int| 0 <= j < i + 1 implies disc_markable(
            #[trigger] keypoints@.take(i + 1)[j],
            bounds,
            shift,
            radius,
        ) by {
            if j < i {
                assert(keypoints@.take(i as int)[j] == keypoints@[j]);
            }
        }
        i = i + 1;
    }
    assert(keypoints@.take(i as int) =~= keypoints@);
    true
}

/// Whether the line of every pair that names a keypoint of either list can
/// be drawn.
fn links_fit(first: &[Keypoint], second: &[Keypoint], shift: u32, matches: &[(usize, usize)]) -> (fit: bool)
    ensures
        fit == all_links_fit(first@, second@, shift, matches@),
{
    let mut i: usize = 0;
    while i < matches.len()
        invariant
            i <= matches@.len(),
            all_links_fit(first@, second@, shift, matches@.take(i as int)),
        decreases matches@.len() - i,
    {
        let pair = matches[i];
        if pair.0 < first.len() && pair.1 < second.len() {
            let from = &first[pair.0];
            let to = &second[pair.1];
            if !(reaches(nearest_pixel(from.x), 0, 0) && reaches(nearest_pixel(from.y), 0, 0)
                && reaches(nearest_pixel(to.x), shift, 0) && reaches(nearest_pixel(to.y), 0, 0)) {
                assert(links(matches@[i as int], first@, second@));
                assert(!link_fits(first@[pair.0 as int], second@[pair.1 as int], shift));
                return false;
            }
        }
        assert forall|j: int| 0 <= j < i + 1 && links(
            #[trigger] matches@.take(i + 1)[j],
            first@,
            second@,
        ) implies link_fits(
            first@[matches@.take(i + 1)[j].0 as int],
            second@[matches@.take(i + 1)[j].1 as int],
            shift,
        ) by {
            if j < i {
                assert(matches@.take(i as int)[j] == matches@[j]);
            }
        }
        i = i + 1;
    }
    assert(matches@.take(i as int) =~= matches@);
    true
}

/// Paints the markers of the keypoints, one after the other.
fn draw_markers(canvas: &mut Canvas, keypoints: &[Keypoint], radius: u32, fixed: Option<Color>, levels: &Vec<u8>)
    requires
        all_markable(keypoints@, shape_of(*old(canvas)), radius),
        fixed is None ==> levels@.len() == keypoints@.len(),
    ensures
        shape_of(*final(canvas)) == shape_of(*old(canvas)),
        pixels_of(*final(canvas)) == with_markers(
            pixels_of(*old(canvas)),
            shape_of(*old(canvas)),
            keypoints@,
            radius,
            fixed,
            levels@,
        ),
{
    let ghost before = pixels_of(*canvas);
    let ghost shape = shape_of(*canvas);
    let mut i: usize = 0;
    while i < keypoints.len()
        invariant
            i <= keypoints@.len(),
            all_markable(keypoints@, shape, radius),
            fixed is None ==> levels@.len() == keypoints@.len(),
            shape_of(*canvas) == shape,
            pixels_of(*canvas) == with_markers(before, shape, keypoints@.take(i as int), radius, fixed, levels@),
        decreases keypoints@.len() - i,
    {
        let color = match fixed {
            Some(color) => color,
            None => (levels[i], 0u8, 0u8),
        };
        assert(keypoints@.take(i + 1).drop_last() =~= keypoints@.take(i as int));
        draw_marker(canvas, &keypoints[i], radius, color);
        i = i + 1;
    }
    assert(keypoints@.take(i as int) =~= keypoints@);
}

/// Paints the marker of one keypoint, if the keypoint falls on the image.
fn draw_marker(canvas: &mut Canvas, k: &Keypoint, radius: u32, color: Color)
    requires
        disc_markable(*k, shape_of(*old(canvas)), 0, radius),
    ensures
        shape_of(*final(canvas)) == shape_of(*old(canvas)),
        pixels_of(*final(canvas)) == with_marker(
            pixels_of(*old(canvas)),
            shape_of(*old(canvas)),
            *k,
            radius,
            color,
        ),
{
    let (width, height) = buffer_dimensions(canvas);
    let x = nearest_pixel(k.x);
    let y = nearest_pixel(k.y);
    if x < width as u128 && y < height as u128 {
        buffer_fill_circle(canvas, (x as i32, y as i32), radius as i32, color);
        let reach: u32 = if radius / 2 >= 1 { radius / 2 } else { 1 };
        draw_cross(canvas, x as u32, y as u32, reach, color);
    }
}

/// Paints a cross around `(x, y)`: first its row, then its column.
fn draw_cross(canvas: &mut Canvas, x: u32, y: u32, reach: u32, color: Color)
    requires
        x < shape_of(*old(canvas)).0,
        y < shape_of(*old(canvas)).1,
    ensures
        shape_of(*final(canvas)) == shape_of(*old(canvas)),
        pixels_of(*final(canvas)) == with_cross(
            pixels_of(*old(canvas)),
            shape_of(*old(canvas)).0 as int,
            x as int,
            y as int,
            reach as int,
            color,
        ),
{
    let ghost before = pixels_of(*canvas);
    let ghost width = shape_of(*canvas).0 as int;
    draw_row_run(canvas, x, y, reach, color);
    draw_column_run(canvas, x, y, reach, color);
    assert(pixels_of(*canvas) =~= with_cross(before, width, x as int, y as int, reach as int, color));
}

/// The pixels with a run of row `y` painted over them: the columns from
/// `from` up to, not including, `to`.
spec fn with_row_run(pixels: Seq<Color>, width: int, y: int, from: int, to: int, color: Color) -> Seq<Color> {
    Seq::new(
        pixels.len(),
        |p: int|
            if p / width == y && from <= p % width < to {
                color
            } else {
                pixels[p]
            },
    )
}

/// Paints the columns from `x - reach` to `x + reach` of row `y`, as far as
/// the image has them.
fn draw_row_run(canvas: &mut Canvas, x: u32, y: u32, reach: u32, color: Color)
    requires
        x < shape_of(*old(canvas)).0,
        y < shape_of(*old(canvas)).1,
    ensures
        shape_of(*final(canvas)) == shape_of(*old(canvas)),
        pixels_of(*final(canvas)) == with_row_run(
            pixels_of(*old(canvas)),
            shape_of(*old(canvas)).0 as int,
            y as int,
            x - reach,
            x + reach + 1,
            color,
        ),
{
    let (width, height) = buffer_dimensions(canvas);
    let ghost before = pixels_of(*canvas);
    let first: i64 = x as i64 - reach as i64;
    let last: i64 = x as i64 + reach as i64;
    let mut col: i64 = first;
    assert(with_row_run(before, width as int, y as int, first as int, first as int, color) =~= before);
    while col <= last
        invariant
            first <= col <= last + 1,
            first == x - reach,
            last == x + reach,
            x < width,
            y < height,
                shape_of(*canvas) == (width, height),
            fills(before, (width, height)),
            pixels_of(*canvas) == with_row_run(before, width as int, y as int, first as int, col as int, color),
        decreases last + 1 - col,
    {
        let ghost now = pixels_of(*canvas);
        if 0 <= col && col < width as i64 {
            buffer_put_pixel(canvas, col as u32, y, color);
            proof {
                lemma_place(width as int, height as int, col as int, y as int);
                assert forall|p: int| 0 <= p < before.len() implies #[trigger] now.update(y * width + col, color)[p]
                    == with_row_run(before, width as int, y as int, first as int, col + 1, color)[p] by {
                    lemma_column_and_row(width as int, p);
                }
                assert(pixels_of(*canvas) =~= with_row_run(
                    before,
                    width as int,
                    y as int,
                    first as int,
                    col + 1,
                    color,
                ));
            }
        } else {
            proof {
                assert forall|p: int| 0 <= p < before.len() implies #[trigger] now[p] == with_row_run(
                    before,
                    width as int,
                    y as int,
                    first as int,
                    col + 1,
                    color,
                )[p] by {
                    lemma_column_and_row(width as int, p);
                }
                assert(now =~= with_row_run(before, width as int, y as int, first as int, col + 1, color));
            }
        }
        col = col + 1;
    }
}

/// The pixels with a run of column `x` painted over them: the rows from
/// `from` up to, not including, `to`.
spec fn with_column_run(pixels: Seq<Color>, width: int, x: int, from: int, to: int, color: Color) -> Seq<Color> {
    Seq::new(
        pixels.len(),
        |p: int|
            if p % width == x && from <= p / width < to {
                color
            } else {
                pixels[p]
            },
    )
}

/// Paints the rows from `y - reach` to `y + reach` of column `x`, as far as
/// the image has them.
fn draw_column_run(canvas: &mut Canvas, x: u32, y: u32, reach: u32, color: Color)
    requires
        x < shape_of(*old(canvas)).0,
        y < shape_of(*old(canvas)).1,
    ensures
        shape_of(*final(canvas)) == shape_of(*old(canvas)),
        pixels_of(*final(canvas)) == with_column_run(
            pixels_of(*old(canvas)),
            shape_of(*old(canvas)).0 as int,
            x as int,
            y - reach,
            y + reach + 1,
            color,
        ),
{
    let (width, height) = buffer_dimensions(canvas);
    let ghost before = pixels_of(*canvas);
    let first: i64 = y as i64 - reach as i64;
    let last: i64 = y as i64 + reach as i64;
    let mut row: i64 = first;
    assert(with_column_run(before, width as int, x as int, first as int, first as int, color) =~= before);
    while row <= last
        invariant
            first <= row <= last + 1,
            first == y - reach,
            last == y + reach,
            x < width,
            y < height,
                shape_of(*canvas) == (width, height),
            fills(before, (width, height)),
            pixels_of(*canvas) == with_column_run(before, width as int, x as int, first as int, row as int, color),
        decreases last + 1 - row,
    {
        let ghost now = pixels_of(*canvas);
        if 0 <= row && row < height as i64 {
            buffer_put_pixel(canvas, x, row as u32, color);
            proof {
                lemma_place(width as int, height as int, x as int, row as int);
                assert forall|p: int| 0 <= p < before.len() implies #[trigger] now.update(row * width + x, color)[p]
                    == with_column_run(before, width as int, x as int, first as int, row + 1, color)[p] by {
                    lemma_column_and_row(width as int, p);
                }
                assert(pixels_of(*canvas) =~= with_column_run(
                    before,
                    width as int,
                    x as int,
                    first as int,
                    row + 1,
                    color,
                ));
            }
        } else {
            proof {
                assert forall|p: int| 0 <= p < before.len() implies #[trigger] now[p] == with_column_run(
                    before,
                    width as int,
                    x as int,
                    first as int,
                    row + 1,
                    color,
                )[p] by {
                    lemma_column_and_row(width as int, p);
                    assert(p < width * height);
                    assert(p / (width as int) < height) by (nonlinear_arith)
                        requires
                            p == (p / (width as int)) * width + p % (width as int),
                            0 <= p % (width as int),
                            p < width * height,
                            0 < width,
                    ;
                }
                assert(now =~= with_column_run(before, width as int, x as int, first as int, row + 1, color));
            }
        }
        row = row + 1;
    }
}

/// Copies `source` onto the canvas, `shift` columns to the right.
fn paste(canvas: &mut Canvas, source: &Canvas, shift: u32)
    requires
        shape_of(*source).0 + shift <= shape_of(*old(canvas)).0,
        shape_of(*source).1 <= shape_of(*old(canvas)).1,
    ensures
        shape_of(*final(canvas)) == shape_of(*old(canvas)),
        pixels_of(*final(canvas)) == pasted(
            pixels_of(*old(canvas)),
            shape_of(*old(canvas)).0 as int,
            pixels_of(*source),
            shape_of(*source).0 as int,
            shift as int,
        ),
{
    let (width, height) = buffer_dimensions(canvas);
    let (source_width, source_height) = buffer_dimensions(source);
    let ghost before = pixels_of(*canvas);
    let ghost from = pixels_of(*source);
    let mut y: u32 = 0;
    assert(pasted_upto(before, width as int, from, source_width as int, shift as int, 0) =~= before) by {
        assert forall|p: int| 0 <= p < before.len() implies pasted_upto(
            before,
            width as int,
            from,
            source_width as int,
            shift as int,
            0,
        )[p] == before[p] by {
            let col = p % (width as int) - shift;
            let row = p / (width as int);
            if 0 <= col < source_width {
                lemma_column_and_row(width as int, p);
                assert(0 <= row * source_width + col) by (nonlinear_arith)
                    requires
                        0 <= row,
                        0 <= col,
                        0 <= source_width,
                ;
            }
        }
    }
    while y < source_height
        invariant
            y <= source_height,
            shape_of(*canvas) == (width, height),
            shape_of(*source) == (source_width, source_height),
            source_width + shift <= width,
            source_height <= height,
            fills(before, (width, height)),
            fills(from, (source_width, source_height)),
            from == pixels_of(*source),
            pixels_of(*canvas) == pasted_upto(
                before,
                width as int,
                from,
                source_width as int,
                shift as int,
                y * source_width,
            ),
        decreases source_height - y,
    {
        let mut x: u32 = 0;
        while x < source_width
            invariant
                x <= source_width,
                y < source_height,
                shape_of(*canvas) == (width, height),
                shape_of(*source) == (source_width, source_height),
                source_width + shift <= width,
                source_height <= height,
                fills(before, (width, height)),
                fills(from, (source_width, source_height)),
                from == pixels_of(*source),
                pixels_of(*canvas) == pasted_upto(
                    before,
                    width as int,
                    from,
                    source_width as int,
                    shift as int,
                    y * source_width + x,
                ),
            decreases source_width - x,
        {
            let ghost now = pixels_of(*canvas);
            let ghost count = y * source_width + x;
            let color = buffer_get_pixel(source, x, y);
            buffer_put_pixel(canvas, x + shift, y, color);
            proof {
                lemma_place(width as int, height as int, x + shift, y as int);
                lemma_place(source_width as int, source_height as int, x as int, y as int);
                let next = pasted_upto(before, width as int, from, source_width as int, shift as int, count + 1);
                assert forall|p: int| 0 <= p < before.len() implies #[trigger] now.update(y * width + (x + shift), color)[p]
                    == next[p] by {
                    let col = p % (width as int) - shift;
                    let row = p / (width as int);
                    lemma_column_and_row(width as int, p);
                    if p != y * width + (x + shift) && 0 <= col < source_width && row * source_width + col == count {
                        lemma_fundamental_div_mod_converse(count, source_width as int, row, col);
                        assert(false);
                    }
                }
                assert(pixels_of(*canvas) =~= next);
            }
            x = x + 1;
        }
        assert(y * source_width + source_width == (y + 1) * source_width) by (nonlinear_arith);
        y = y + 1;
    }
    assert(y * source_width == from.len()) by (nonlinear_arith)
        requires
            y == source_height,
            from.len() == source_width * source_height,
    ;
}

/// Paints a filled circle for each keypoint that falls on an image of shape
/// `bounds`, `shift` columns to the right of where the keypoint falls.
fn draw_discs(canvas: &mut Canvas, keypoints: &[Keypoint], bounds: (u32, u32), shift: u32, radius: u32, color: Color)
    requires
        all_discs_markable(keypoints@, bounds, shift, radius),
    ensures
        shape_of(*final(canvas)) == shape_of(*old(canvas)),
        pixels_of(*final(canvas)) == with_discs(
            pixels_of(*old(canvas)),
            shape_of(*old(canvas)),
            keypoints@,
            bounds,
            shift,
            radius,
            color,
        ),
{
    let ghost before = pixels_of(*canvas);
    let ghost shape = shape_of(*canvas);
    let mut i: usize = 0;
    while i < keypoints.len()
        invariant
            i <= keypoints@.len(),
            all_discs_markable(keypoints@, bounds, shift, radius),
            shape_of(*canvas) == shape,
            pixels_of(*canvas) == with_discs(before, shape, keypoints@.take(i as int), bounds, shift, radius, color),
        decreases keypoints@.len() - i,
    {
        let x = nearest_pixel(keypoints[i].x);
        let y = nearest_pixel(keypoints[i].y);
        assert(keypoints@.take(i + 1).drop_last() =~= keypoints@.take(i as int));
        if x < bounds.0 as u128 && y < bounds.1 as u128 {
            assert(disc_markable(keypoints@[i as int], bounds, shift, radius));
            buffer_fill_circle(canvas, ((x + shift as u128) as i32, y as i32), radius as i32, color);
        }
        i = i + 1;
    }
    assert(keypoints@.take(i as int) =~= keypoints@);
}

/// Paints a line for each pair that names a keypoint of `first` and one of
/// `second`.
fn draw_links(canvas: &mut Canvas, first: &[Keypoint], second: &[Keypoint], shift: u32, matches: &[(usize, usize)])
    requires
        all_links_fit(first@, second@, shift, matches@),
    ensures
        shape_of(*final(canvas)) == shape_of(*old(canvas)),
        pixels_of(*final(canvas)) == with_links(
            pixels_of(*old(canvas)),
            shape_of(*old(canvas)),
            first@,
            second@,
            shift,
            matches@,
        ),
{
    let ghost before = pixels_of(*canvas);
    let ghost shape = shape_of(*canvas);
    let mut i: usize = 0;
    while i < matches.len()
        invariant
            i <= matches@.len(),
            all_links_fit(first@, second@, shift, matches@),
            shape_of(*canvas) == shape,
            pixels_of(*canvas) == with_links(before, shape, first@, second@, shift, matches@.take(i as int)),
        decreases matches@.len() - i,
    {
        let pair = matches[i];
        assert(matches@.take(i + 1).drop_last() =~= matches@.take(i as int));
        if pair.0 < first.len() && pair.1 < second.len() {
            let from = &first[pair.0];
            let to = &second[pair.1];
            assert(links(matches@[i as int], first@, second@));
            let start = (nearest_pixel(from.x) as i32, nearest_pixel(from.y) as i32);
            let end = ((nearest_pixel(to.x) + shift as u128) as i32, nearest_pixel(to.y) as i32);
            buffer_draw_segment(canvas, start, end, LINK_COLOR);
        }
        i = i + 1;
    }
    assert(matches@.take(i as int) =~= matches@);
}

/// The one place of an image that a column and a row name.
proof fn lemma_place(width: int, height: int, col: int, row: int)
    requires
        0 <= col < width,
        0 <= row < height,
    ensures
        0 <= row * width + col < width * height,
        (row * width + col) % width == col,
        (row * width + col) / width == row,
{
    assert(0 <= row * width + col < width * height) by (nonlinear_arith)
        requires
            0 <= col < width,
            0 <= row < height,
    ;
    assert(row * width + col == width * row + col) by (nonlinear_arith);
    lemma_fundamental_div_mod_converse(row * width + col, width, row, col);
}

/// The column and the row of a place of an image.
proof fn lemma_column_and_row(width: int, p: int)
    requires
        0 < width,
        0 <= p,
    ensures
        0 <= p % width < width,
        0 <= p / width,
        p == (p / width) * width + p % width,
{
    lemma_fundamental_div_mod(p, width);
    assert(width * (p / width) == (p / width) * width) by (nonlinear_arith);
    assert(0 <= p / width) by (nonlinear_arith)
        requires
            p == width * (p / width) + p % width,
            0 <= p % width < width,
            0 <= p,
            0 < width,
    ;
}

} // verus!
