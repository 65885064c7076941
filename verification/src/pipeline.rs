//! The morph pipeline's pure stages: validation, planning and compositing.

use vstd::prelude::*;

use crate::points::{lerp_fixed, Coord, Points, Ratio, MAX_STEPS};
use crate::raster::{
    composite_spec, composite_over, lemma_boundary_ratios, scale_alpha, scale_alpha_spec, Image,
};
use crate::MorphError;

verus! {

/// Ratios and interpolated point configurations for one morph run.
#[derive(Debug)]
pub struct MorphPlan {
    pub ratios: Vec<Ratio>,
    pub configs: Vec<Vec<Coord>>,
}

/// Validates the endpoints and the configuration, then produces the blend
/// ratios and interpolated point configurations. Endpoint images of unequal
/// dimensions are rejected before anything else is computed; endpoints with
/// a zero dimension cannot be warped or resized and are likewise rejected
/// up front, as an unusable configuration.
pub fn plan_morph(a: &Image, b: &Image, points: &Points, steps: usize) -> (r: Result<
    MorphPlan,
    MorphError,
>)
    requires
        points.wf(),
    ensures
        r is Err && r.unwrap_err() == MorphError::DimensionMismatch <==> (a.width != b.width
            || a.height != b.height),
        r is Err && r.unwrap_err() == MorphError::InvalidConfiguration <==> (a.width == b.width
            && a.height == b.height && (a.width == 0 || a.height == 0 || !(2 <= steps
            <= MAX_STEPS))),
        r is Ok <==> (a.width == b.width && a.height == b.height && a.width >= 1 && a.height >= 1
            && 2 <= steps <= MAX_STEPS),
        r is Ok ==> ({
            let plan = r.unwrap();
            let den = (steps - 1) as int;
            &&& plan.ratios@.len() == steps
            &&& forall|k: int|
                0 <= k < steps ==> #[trigger] plan.ratios@[k] == (Ratio {
                    num: k as u32,
                    den: (steps - 1) as u32,
                })
            &&& plan.configs@.len() == steps
            &&& forall|k: int|
                0 <= k < steps ==> (#[trigger] plan.configs@[k])@.len() == points.human@.len()
            &&& forall|k: int, i: int|
                0 <= k < steps && 0 <= i < points.human@.len() ==> {
                    &&& (#[trigger] plan.configs@[k]@[i]).x == lerp_fixed(
                        points.human@[i].x as int,
                        points.otter@[i].x as int,
                        k,
                        den,
                    )
                    &&& plan.configs@[k]@[i].y == lerp_fixed(
                        points.human@[i].y as int,
                        points.otter@[i].y as int,
                        k,
                        den,
                    )
                }
        }),
{
    if a.width != b.width || a.height != b.height {
        return Err(MorphError::DimensionMismatch);
    }
    if a.width == 0 || a.height == 0 {
        return Err(MorphError::InvalidConfiguration);
    }
    match points.interpolate(steps) {
        Ok((ratios, configs)) => Ok(MorphPlan { ratios, configs }),
        Err(e) => {
            proof {
                assert(e == MorphError::InvalidConfiguration);
            }
            Err(e)
        },
    }
}

/// Applies the cross-fade weight `1 - r` to the first warped image's alpha
/// channel and composites it over the second warped image: the morph frame
/// content at ratio `r`, before resizing.
pub fn compose_frame(warped_a: Image, warped_b: Image, ratio: Ratio) -> (r: Result<
    Image,
    MorphError,
>)
    requires
        warped_a.wf(),
        warped_b.wf(),
        ratio.wf(),
    ensures
        r is Ok <==> (warped_a.width == warped_b.width && warped_a.height == warped_b.height),
        r is Err ==> r.unwrap_err() == MorphError::DimensionMismatch,
        r is Ok ==> ({
            let out = r.unwrap();
            &&& out.wf()
            &&& out.width == warped_a.width
            &&& out.height == warped_a.height
            &&& out.data@ == composite_spec(
                scale_alpha_spec(
                    warped_a.data@,
                    (ratio.den - ratio.num) as int,
                    ratio.den as int,
                ),
                warped_b.data@,
            )
        }),
{
    if warped_a.width != warped_b.width || warped_a.height != warped_b.height {
        return Err(MorphError::DimensionMismatch);
    }
    let mut top = warped_a;
    scale_alpha(&mut top, ratio.den - ratio.num, ratio.den);
    let mut bottom = warped_b;
    composite_over(&mut bottom, &top);
    Ok(bottom)
}

/// Law (boundary ratios): at ratio `0/den` the first warp keeps its own
/// opacity, so the frame is exactly the plain top-over-bottom composite; at
/// ratio `den/den` the first warp is fully transparent and the frame equals
/// the second warp's bytes.
pub proof fn lemma_compose_frame_boundaries(top: Seq<u8>, bot: Seq<u8>, ratio: Ratio)
    requires
        ratio.wf(),
        top.len() == bot.len(),
        top.len() % 4 == 0,
    ensures
        ratio.num == 0 ==> composite_spec(
            scale_alpha_spec(top, (ratio.den - ratio.num) as int, ratio.den as int),
            bot,
        ) == composite_spec(top, bot),
        ratio.num == ratio.den ==> composite_spec(
            scale_alpha_spec(top, (ratio.den - ratio.num) as int, ratio.den as int),
            bot,
        ) == bot,
{
    lemma_boundary_ratios(top, bot, ratio.den as int);
    if ratio.num == 0 {
        assert(scale_alpha_spec(top, (ratio.den - ratio.num) as int, ratio.den as int) == scale_alpha_spec(
            top,
            ratio.den as int,
            ratio.den as int,
        ));
    }
}

} // verus!
