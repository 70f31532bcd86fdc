use vstd::prelude::*;
use crate::align::{aligned_pixels, aligned_size, lemma_aligned_size_within, search_depth, AlignMTB};
use crate::calibrate::{
    all_times_equal, calibrate_from, initial_curve, lemma_calibrate_len, CalibrateRobertson,
    MAX_CALIBRATION_ELEMENTS,
};
use crate::image::{Image, PhotoError};
use crate::merge::{exposures, robertson_map, valid_sequence, MergeRobertson, RadianceMap, ResponseCurve};
use crate::tonemap::{in_unit_range, reinhard_map, ToneImage, TonemapReinhard};

verus! {

/// `aligned` is what `aligner` makes of `src`.
pub open spec fn is_alignment_of(aligned: Seq<Image>, src: Seq<Image>, aligner: AlignMTB) -> bool {
    &&& aligned.len() == src.len()
    &&& forall|i: int|
        0 <= i < src.len() ==> {
            &&& (#[trigger] aligned[i]).wf()
            &&& aligned[i].channels == src[i].channels
            &&& (aligned[i].width as int, aligned[i].height as int) == aligned_size(
                src,
                search_depth(aligner.max_bits as int),
                aligner.exclude_range as int,
                aligner.cut,
            )
            &&& aligned[i].data@ == aligned_pixels(
                src,
                i,
                search_depth(aligner.max_bits as int),
                aligner.exclude_range as int,
                aligner.cut,
            )
        }
}

/// A bracket that the whole chain accepts: one size, three channels, a
/// positive time for each image and not all times equal, within the size
/// limits.
pub open spec fn valid_bracket(src: Seq<Image>, times: Seq<u32>) -> bool {
    &&& valid_sequence(src, times)
    &&& src.len() * src[0].data@.len() <= MAX_CALIBRATION_ELEMENTS
    &&& !all_times_equal(times)
    &&& src[0].channels == 3
}

/// The whole chain: align `src` onto its first image, calibrate the camera
/// response on the aligned images, merge them through that response, and
/// tonemap the radiance into `dst`. Returns whether calibration converged.
/// A valid bracket always succeeds; on failure `dst` is left alone.
pub fn process_bracket(
    aligner: &AlignMTB,
    calibrator: &mut CalibrateRobertson,
    tonemap: &TonemapReinhard,
    src: &Vec<Image>,
    times: &Vec<u32>,
    dst: &mut ToneImage,
) -> (r: Result<bool, PhotoError>)
    requires
        aligner.wf(),
        old(calibrator).wf(),
        tonemap.wf(),
        forall|j: int| 0 <= j < src@.len() ==> (#[trigger] src@[j]).wf(),
    ensures
        valid_bracket(src@, times@) ==> r.is_ok(),
        r.is_err() ==> *final(dst) == *old(dst),
        r matches Ok(converged) ==> exists|aligned: Seq<Image>|
            {
                let es = exposures(aligned, times@);
                let ch = aligned[0].channels as int;
                let len = aligned[0].data@.len() as int;
                let res = calibrate_from(
                    es,
                    initial_curve(ch),
                    ch,
                    len,
                    old(calibrator).max_iter as nat,
                    old(calibrator).threshold as int,
                );
                let rad = robertson_map(es, res.0, ch, len as nat);
                &&& #[trigger] is_alignment_of(aligned, src@, *aligner)
                &&& converged == res.1
                &&& final(dst).data@ == reinhard_map(
                    rad,
                    ch,
                    aligned[0].width * aligned[0].height,
                    tonemap.light_adaptation as int,
                    tonemap.color_adaptation as int,
                    tonemap.intensity as int,
                )
                &&& in_unit_range(final(dst).data@)
                &&& final(dst).width == aligned[0].width
                &&& final(dst).height == aligned[0].height
                &&& final(dst).channels == ch
            },
{
    let mut aligned: Vec<Image> = Vec::new();
    match aligner.process(src, &mut aligned) {
        Ok(()) => {},
        Err(e) => {
            return Err(e);
        },
    }
    let ghost al = aligned@;
    let ghost mb = search_depth(aligner.max_bits as int);
    let ghost rg = aligner.exclude_range as int;
    proof {
        assert(is_alignment_of(al, src@, *aligner));
        if valid_bracket(src@, times@) {
            let n = src@.len();
            lemma_aligned_size_within(src@, mb, rg, aligner.cut);
            assert forall|i: int| 0 <= i < n implies (#[trigger] al[i]).same_shape(&al[0]) by {
                assert(src@[i].same_shape(&src@[0]));
            }
            let w2 = al[0].width as int;
            let h2 = al[0].height as int;
            let c = al[0].channels as int;
            let w = src@[0].width as int;
            let h = src@[0].height as int;
            assert(w2 * h2 * c <= w * h * c) by (nonlinear_arith)
                requires 0 <= w2 <= w, 0 <= h2 <= h, c >= 0;
            assert(n * al[0].data@.len() <= n * src@[0].data@.len()) by (nonlinear_arith)
                requires al[0].data@.len() <= src@[0].data@.len(), n >= 0;
            assert(valid_sequence(al, times@));
        }
    }
    let mut curve = ResponseCurve { channels: 1, values: Vec::new() };
    let converged = match calibrator.process(&aligned, &mut curve, times) {
        Ok(c) => c,
        Err(e) => {
            return Err(e);
        },
    };
    proof {
        lemma_calibrate_len(
            exposures(al, times@),
            initial_curve(al[0].channels as int),
            al[0].channels as int,
            al[0].data@.len() as int,
            old(calibrator).max_iter as nat,
            old(calibrator).threshold as int,
        );
    }
    let mut rad = RadianceMap { width: 0, height: 0, channels: 1, data: Vec::new() };
    let merger = MergeRobertson {  };
    match merger.process_with_response(&aligned, &mut rad, times, &curve) {
        Ok(()) => {},
        Err(e) => {
            return Err(e);
        },
    }
    match tonemap.process(&rad, dst) {
        Ok(()) => {},
        Err(e) => {
            return Err(e);
        },
    }
    Ok(converged)
}

} // verus!
