//! What the removal of a background comes to as a whole.
//!
//! The steps of a removal are stated one by one; here they are put together, for a model that
//! finds the same mask whenever it sees the same input, and for a way of blending that gives
//! the same alpha channel whenever it gets the same contributions.

use vstd::prelude::*;
use crate::arith::{lemma_offset_bound, lemma_offset_split};
use crate::enhance::{enhanced, AlphaCurve};
use crate::raster::{alpha_replaced, law_old_alpha_is_forgotten, same_colours, RgbaImage};
use crate::removal::{masked, single_output, stage_at, Removal, Stage};
use crate::resample::lanczos3_resampled;
use crate::tensor::{axis_lengths, fillable, input_of, law_alpha_does_not_reach_the_model};
use crate::tiling::Contribution;

verus! {

/// What is contributed in the run of a removal with tiles, mask by mask, where `global` is the
/// mask of the whole picture in the picture's size. The mask of the whole picture, which comes
/// first, contributes nothing.
pub open spec fn contributed(
    start: &Removal,
    shape: Seq<i64>,
    model: spec_fn(Seq<int>) -> Seq<u8>,
    global: Seq<u8>,
) -> Seq<Seq<Contribution>> {
    Seq::new(
        (start.tile_count() + 1) as nat,
        |i: int|
            if i == 0 {
                Seq::empty()
            } else {
                let region = start.tile_data(i - 1);
                let mask = model(input_of(shape, region, start.model_w, start.model_h));
                start.contributions(i - 1, start.tile_levels(global, i - 1, mask))
            },
    )
}

/// Whether `output` is what may become of the picture of a removal that is at its start, with
/// a model of the input shape `shape`.
pub open spec fn outcome(
    start: &Removal,
    shape: Seq<i64>,
    model: spec_fn(Seq<int>) -> Seq<u8>,
    blend: spec_fn(Seq<Seq<Contribution>>) -> Seq<u8>,
    output: Seq<u8>,
) -> bool {
    let w = start.picture.width;
    let h = start.picture.height;
    let mask = model(input_of(shape, start.picture.data@, w, h));
    if start.stage == Stage::Whole {
        single_output(
            start.picture.data@,
            w,
            h,
            mask,
            start.model_w,
            start.model_h,
            start.curve.levels@,
            output,
        )
    } else {
        exists|global: Seq<u8>| #[trigger]
            lanczos3_resampled(mask, start.model_w, start.model_h, w, h, global) && output
                == alpha_replaced(
                start.picture.data@,
                blend(contributed(start, shape, model, global)),
            )
    }
}

/// Whether step `i` of a run is right: the mask of the region that state `i` asks for leads to
/// the next state and contributes list `i`.
pub open spec fn is_step(
    states: Seq<Removal>,
    lists: Seq<Seq<Contribution>>,
    shape: Seq<i64>,
    model: spec_fn(Seq<int>) -> Seq<u8>,
    i: int,
) -> bool {
    let (w, h, region) = states[i].next_region();
    &&& states[i].masks_to_come() > 0
    &&& states[i].accepted(model(input_of(shape, region, w, h)), &states[i + 1], lists[i])
}

/// Whether `states` are the states of a run from its start on, and `lists` what was contributed
/// between them.
pub open spec fn is_run(
    states: Seq<Removal>,
    lists: Seq<Seq<Contribution>>,
    shape: Seq<i64>,
    model: spec_fn(Seq<int>) -> Seq<u8>,
) -> bool {
    &&& states.len() == lists.len() + 1
    &&& states[0].wf()
    &&& states[0].stage == Stage::Whole || states[0].stage == Stage::Global
    &&& forall|i: int|
        0 <= i < lists.len() ==> #[trigger] is_step(states, lists, shape, model, i)
}

/// The state of a run with tiles after `n` masks, and what was contributed until then.
proof fn lemma_run(
    states: Seq<Removal>,
    lists: Seq<Seq<Contribution>>,
    shape: Seq<i64>,
    model: spec_fn(Seq<int>) -> Seq<u8>,
    n: int,
)
    requires
        is_run(states, lists, shape, model),
        states[0].stage == Stage::Global,
        1 <= n <= lists.len(),
    ensures
        states[n].wf(),
        states[n].same_plan(&states[0]),
        states[n].picture == states[0].picture,
        states[n].global == states[1].global,
        states[n].stage == stage_at(n - 1, states[0].tile_count()),
        n <= states[0].tile_count() + 1,
        forall|i: int|
            0 <= i < n ==> #[trigger] lists[i] == contributed(
                &states[0],
                shape,
                model,
                states[1].global.data@,
            )[i],
    decreases n,
{
    let expected = contributed(&states[0], shape, model, states[1].global.data@);
    assert(is_step(states, lists, shape, model, n - 1));
    if n > 1 {
        lemma_run(states, lists, shape, model, n - 1);
        assert(n - 2 < states[0].tile_count());
        assert(states[n - 1].stage == Stage::Tile((n - 2) as usize));
        assert(lists[n - 1] == expected[n - 1]);
    } else {
        assert(lists[0] =~= expected[0]);
    }
}

/// A run of a removal asks for as many masks as were to come at its start, and what it ends
/// with is the outcome of its start. `done` is the state at the end; with tiles it is the one
/// after the blended alpha channel was taken.
pub proof fn law_run_gives_the_outcome(
    states: Seq<Removal>,
    lists: Seq<Seq<Contribution>>,
    shape: Seq<i64>,
    model: spec_fn(Seq<int>) -> Seq<u8>,
    blend: spec_fn(Seq<Seq<Contribution>>) -> Seq<u8>,
    done: Removal,
)
    requires
        is_run(states, lists, shape, model),
        states.last().masks_to_come() == 0,
        states[0].stage == Stage::Whole ==> done == states.last(),
        states[0].stage == Stage::Global ==> states.last().blended(blend(lists), &done),
    ensures
        lists.len() == states[0].masks_to_come(),
        states[0].stage == Stage::Global ==> states.last().stage == Stage::Blend,
        done.stage == Stage::Done,
        outcome(&states[0], shape, model, blend, done.picture.data@),
{
    let n = lists.len() as int;
    if n > 0 {
        assert(is_step(states, lists, shape, model, 0));
    }
    if states[0].stage == Stage::Whole {
        if n > 1 {
            assert(is_step(states, lists, shape, model, 1));
        }
    } else {
        lemma_run(states, lists, shape, model, n);
        let global = states[1].global.data@;
        assert(lists =~= contributed(&states[0], shape, model, global));
    }
}

/// A picture that is not cut into tiles, because that was not asked for or because it is
/// smaller than the model's input, needs one mask, and its outcome is that of
/// [`process_single`](crate::removal::process_single).
pub proof fn law_uncut_picture_is_processed_as_one(
    start: &Removal,
    picture: &RgbaImage,
    tile: bool,
    model_dims: (u32, u32),
    curve: &AlphaCurve,
    shape: Seq<i64>,
    model: spec_fn(Seq<int>) -> Seq<u8>,
    blend: spec_fn(Seq<Seq<Contribution>>) -> Seq<u8>,
    output: Seq<u8>,
)
    requires
        start.started(picture, tile, model_dims, curve),
        !tile || picture.width < model_dims.0 || picture.height < model_dims.1,
    ensures
        start.masks_to_come() == 1,
        outcome(start, shape, model, blend, output) <==> single_output(
            picture.data@,
            picture.width,
            picture.height,
            model(input_of(shape, picture.data@, picture.width, picture.height)),
            model_dims.0,
            model_dims.1,
            curve.levels@,
            output,
        ),
{
}

/// Asking for tiles makes no difference for a picture that is smaller than the model's input.
pub proof fn law_tiles_make_no_difference_for_small_pictures(
    with: &Removal,
    without: &Removal,
    picture: &RgbaImage,
    model_dims: (u32, u32),
    curve: &AlphaCurve,
    shape: Seq<i64>,
    model: spec_fn(Seq<int>) -> Seq<u8>,
    blend: spec_fn(Seq<Seq<Contribution>>) -> Seq<u8>,
    output: Seq<u8>,
)
    requires
        with.started(picture, true, model_dims, curve),
        without.started(picture, false, model_dims, curve),
        picture.width < model_dims.0 || picture.height < model_dims.1,
    ensures
        with.same_plan(without),
        with.stage == without.stage,
        outcome(with, shape, model, blend, output) <==> outcome(
            without,
            shape,
            model,
            blend,
            output,
        ),
{
    assert(with.columns@ =~= without.columns@);
    assert(with.rows@ =~= without.rows@);
}

/// Tiles of pictures that differ in their alpha channels only differ in these only.
proof fn lemma_tiles_have_the_same_colours(a: &Removal, b: &Removal, k: int)
    requires
        a.wf(),
        a.planned(),
        a.same_plan(b),
        same_colours(a.picture.data@, b.picture.data@),
        0 <= k < a.tile_count(),
    ensures
        same_colours(a.tile_data(k), b.tile_data(k)),
{
    a.lemma_tile_inside(k);
    let mw = a.model_w as int;
    let mh = a.model_h as int;
    let w = a.picture.width as int;
    let x = a.tile_x(k);
    let y = a.tile_y(k);
    assert(b.tile_x(k) == x && b.tile_y(k) == y);
    let first = a.tile_data(k);
    let second = b.tile_data(k);
    assert forall|i: int| 0 <= i < first.len() && i % 4 != 3 implies #[trigger] first[i]
        == second[i] by {
        let cell = i / 4;
        assert(0 <= cell < mw * mh);
        lemma_offset_split(cell, mw, mh);
        let row = y + cell / mw;
        let col = x + cell % mw;
        lemma_offset_bound(col, row, w, a.picture.height as int);
        let at = (row * w + col) * 4 + i % 4;
        assert(at % 4 == i % 4);
        assert(a.picture.data@[at] == b.picture.data@[at]);
    }
}

/// With a model of three channels at most, what
/// [`process_single`](crate::removal::process_single) may make of a picture does not depend on
/// the alpha channel that the picture comes with, and a second pass over it may give it again.
pub proof fn law_single_output_forgets_the_input_alpha(
    a: Seq<u8>,
    b: Seq<u8>,
    w: u32,
    h: u32,
    shape: Seq<i64>,
    model: spec_fn(Seq<int>) -> Seq<u8>,
    curve: Seq<u8>,
    output: Seq<u8>,
)
    requires
        same_colours(a, b),
        fillable(axis_lengths(shape), shape[3] as u32 as int, shape[2] as u32 as int),
        shape[1] as usize <= 3,
        single_output(
            a,
            w,
            h,
            model(input_of(shape, a, w, h)),
            shape[3] as u32,
            shape[2] as u32,
            curve,
            output,
        ),
    ensures
        single_output(
            b,
            w,
            h,
            model(input_of(shape, b, w, h)),
            shape[3] as u32,
            shape[2] as u32,
            curve,
            output,
        ),
        single_output(
            output,
            w,
            h,
            model(input_of(shape, output, w, h)),
            shape[3] as u32,
            shape[2] as u32,
            curve,
            output,
        ),
{
    let mask = model(input_of(shape, a, w, h));
    let upscaled = choose|upscaled: Seq<u8>| #[trigger]
        lanczos3_resampled(mask, shape[3] as u32, shape[2] as u32, w, h, upscaled) && output
            == masked(a, upscaled, curve);
    let alpha = enhanced(upscaled, curve);
    law_alpha_does_not_reach_the_model(shape, a, b, w, h);
    law_old_alpha_is_forgotten(a, b, alpha);
    assert(output == masked(b, upscaled, curve));
    law_alpha_does_not_reach_the_model(shape, a, output, w, h);
    law_old_alpha_is_forgotten(a, output, alpha);
    assert(output == masked(output, upscaled, curve));
}

/// With a model of three channels at most, the alpha channel that a picture comes with has no
/// influence on the outcome.
pub proof fn law_input_alpha_has_no_influence(
    a: &Removal,
    b: &Removal,
    shape: Seq<i64>,
    model: spec_fn(Seq<int>) -> Seq<u8>,
    blend: spec_fn(Seq<Seq<Contribution>>) -> Seq<u8>,
    output: Seq<u8>,
)
    requires
        a.wf(),
        b.wf(),
        a.stage == Stage::Whole || a.stage == Stage::Global,
        b.stage == a.stage,
        a.same_plan(b),
        same_colours(a.picture.data@, b.picture.data@),
        fillable(axis_lengths(shape), a.model_w as int, a.model_h as int),
        shape[1] as usize <= 3,
        shape[3] as u32 == a.model_w,
        shape[2] as u32 == a.model_h,
    ensures
        outcome(a, shape, model, blend, output) <==> outcome(b, shape, model, blend, output),
{
    lemma_outcome_carries_over(a, b, shape, model, blend, output);
    assert(same_colours(b.picture.data@, a.picture.data@)) by {
        assert forall|i: int|
            0 <= i < b.picture.data@.len() && i % 4 != 3 implies #[trigger] b.picture.data@[i]
            == a.picture.data@[i] by {
            assert(a.picture.data@[i] == b.picture.data@[i]);
        }
    }
    lemma_outcome_carries_over(b, a, shape, model, blend, output);
}

/// An outcome for a picture is one for every picture of the same colours.
proof fn lemma_outcome_carries_over(
    a: &Removal,
    b: &Removal,
    shape: Seq<i64>,
    model: spec_fn(Seq<int>) -> Seq<u8>,
    blend: spec_fn(Seq<Seq<Contribution>>) -> Seq<u8>,
    output: Seq<u8>,
)
    requires
        a.wf(),
        b.wf(),
        a.stage == Stage::Whole || a.stage == Stage::Global,
        b.stage == a.stage,
        a.same_plan(b),
        same_colours(a.picture.data@, b.picture.data@),
        fillable(axis_lengths(shape), a.model_w as int, a.model_h as int),
        shape[1] as usize <= 3,
        shape[3] as u32 == a.model_w,
        shape[2] as u32 == a.model_h,
    ensures
        outcome(a, shape, model, blend, output) ==> outcome(b, shape, model, blend, output),
{
    let w = a.picture.width;
    let h = a.picture.height;
    let first = a.picture.data@;
    let second = b.picture.data@;
    law_alpha_does_not_reach_the_model(shape, first, second, w, h);
    let mask = model(input_of(shape, first, w, h));
    if outcome(a, shape, model, blend, output) {
        if a.stage == Stage::Whole {
            let curve = a.curve.levels@;
            law_single_output_forgets_the_input_alpha(
                first,
                second,
                w,
                h,
                shape,
                model,
                curve,
                output,
            );
        } else {
            let global = choose|global: Seq<u8>| #[trigger]
                lanczos3_resampled(mask, a.model_w, a.model_h, w, h, global) && output
                    == alpha_replaced(first, blend(contributed(a, shape, model, global)));
            let lists = contributed(a, shape, model, global);
            assert forall|i: int| 0 <= i < lists.len() implies #[trigger] lists[i] == contributed(
                b,
                shape,
                model,
                global,
            )[i] by {
                if i > 0 {
                    lemma_tiles_have_the_same_colours(a, b, i - 1);
                    law_alpha_does_not_reach_the_model(
                        shape,
                        a.tile_data(i - 1),
                        b.tile_data(i - 1),
                        a.model_w,
                        a.model_h,
                    );
                }
            }
            assert(lists =~= contributed(b, shape, model, global));
            law_old_alpha_is_forgotten(first, second, blend(lists));
        }
    }
}

/// With a model of three channels at most, a second pass over an outcome changes nothing: `second`
/// is at the start of a removal for the outcome `output` of `first`, and `output` is its outcome
/// too.
pub proof fn law_second_pass_changes_nothing(
    first: &Removal,
    second: &Removal,
    shape: Seq<i64>,
    model: spec_fn(Seq<int>) -> Seq<u8>,
    blend: spec_fn(Seq<Seq<Contribution>>) -> Seq<u8>,
    output: Seq<u8>,
)
    requires
        first.wf(),
        second.wf(),
        first.stage == Stage::Whole || first.stage == Stage::Global,
        second.stage == first.stage,
        first.same_plan(second),
        second.picture.data@ == output,
        outcome(first, shape, model, blend, output),
        fillable(axis_lengths(shape), first.model_w as int, first.model_h as int),
        shape[1] as usize <= 3,
        shape[3] as u32 == first.model_w,
        shape[2] as u32 == first.model_h,
    ensures
        outcome(second, shape, model, blend, output),
{
    assert(same_colours(first.picture.data@, output));
    lemma_outcome_carries_over(first, second, shape, model, blend, output);
}

} // verus!
