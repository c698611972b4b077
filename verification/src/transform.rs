//! Functions applied to an image once, changing it.

use vstd::prelude::*;
use crate::color::Color;
use crate::filter::{silhouette_params, smooth_params, smoothed, Filter, Value};
use crate::geom::Point;
use crate::image::Image;

verus! {

/// The color a pixel takes when smoothed: its 3x3 neighbourhood averaged,
/// weighted by alpha, with neighbours beyond the edge left out.
pub fn smoothed_pixel(image: &Image, p: Point) -> (c: Color)
    requires
        i32::MIN < p.x <= i32::MAX - 2,
        i32::MIN < p.y <= i32::MAX - 2,
    ensures
        c == smoothed(image@, p.x as int, p.y as int),
{
    crate::filter::smoothed_pixel(image, p)
}

/// Functions applied to an image once, changing it.
#[derive(Clone, Copy, Debug, PartialEq, Eq, Structural)]
pub enum Transform {
    Identity,
    Silhouete,
    ApplyPalette,
    /// Softens the steps between neighbouring colors.
    Smooth,
}

impl Transform {
    /// The filter this applies in one go, at its default settings; none for
    /// the transform that does nothing. Sharing the filters means a one-off
    /// transform and the filter of the same name cannot drift apart.
    pub fn as_filter(&self) -> (f: Option<Filter>)
        ensures
            (*self == Transform::Identity) <==> f is None,
            *self == Transform::Silhouete ==> f->0.id@ == "silhouette"@ && f->0.params@
                == silhouette_params(),
            *self == Transform::ApplyPalette ==> f->0.id@ == "apply_palette"@ && f->0.params@
                == Seq::<(Seq<char>, Value)>::empty(),
            *self == Transform::Smooth ==> f->0.id@ == "smooth"@ && f->0.params@ == smooth_params(),
    {
        match self {
            Transform::Identity => None,
            Transform::Silhouete => Some(Filter::silhouette()),
            Transform::ApplyPalette => Some(Filter::apply_palette()),
            Transform::Smooth => Some(Filter::smooth()),
        }
    }
}

} // verus!
