//! The refiner: a bounded history of submitted frames and the pipeline
//! that turns one frame into the mask of the selected object.

use vstd::prelude::*;
use vstd::slice::slice_to_vec;
use crate::grid::in_grid;
use crate::morphology::{dilate, dilated, erode, eroded};
use crate::region::{flood_fill, isolated};

verus! {

/// Radius of the disk kernel with which the pipeline erodes and dilates.
pub const KERNEL_RADIUS: usize = 5;

/// Refines the masks of one tracked subject, frame by frame. It owns the
/// grid's shape and the most recent frames that were submitted to it,
/// oldest first. The type of a sample is left to the caller.
pub struct SubjectRefiner<T> {
    width: usize,
    height: usize,
    history: Vec<Vec<T>>,
    max_history: usize,
}

/// What a refiner holds, as mathematical values.
pub struct RefinerState<T> {
    pub width: nat,
    pub height: nat,
    pub max_history: nat,
    pub frames: Seq<Seq<T>>,
}

/// The `keep` most recent of `frames`, in their order.
pub open spec fn latest<T>(frames: Seq<Seq<T>>, keep: nat) -> Seq<Seq<T>> {
    if frames.len() > keep {
        frames.subrange(frames.len() - keep, frames.len() as int)
    } else {
        frames
    }
}

/// The history after one more frame has been taken in: the frame goes to
/// the end, and the oldest frame leaves where the bound is passed.
pub open spec fn with_frame<T>(frames: Seq<Seq<T>>, frame: Seq<T>, keep: nat) -> Seq<Seq<T>> {
    latest(frames.push(frame), keep)
}

/// The history after a run of frames has been taken in, one by one.
pub open spec fn replay<T>(frames: Seq<Seq<T>>, submissions: Seq<Seq<T>>, keep: nat) -> Seq<
    Seq<T>,
>
    decreases submissions.len(),
{
    if submissions.len() == 0 {
        frames
    } else {
        with_frame(replay(frames, submissions.drop_last(), keep), submissions.last(), keep)
    }
}

/// However many frames are taken in, the history holds the most recent of
/// them, in the order of their submission, and never more than its bound.
/// Once as many frames as the bound have been taken in, it holds exactly
/// the last of them, as many as the bound.
pub proof fn lemma_history_holds_latest<T>(
    frames: Seq<Seq<T>>,
    submissions: Seq<Seq<T>>,
    keep: nat,
)
    requires
        keep >= 1,
        frames.len() <= keep,
    ensures
        replay(frames, submissions, keep) == latest(frames + submissions, keep),
        replay(frames, submissions, keep).len() <= keep,
        submissions.len() >= keep ==> replay(frames, submissions, keep) == submissions.subrange(
            submissions.len() - keep,
            submissions.len() as int,
        ),
    decreases submissions.len(),
{
    if submissions.len() > 0 {
        lemma_history_holds_latest(frames, submissions.drop_last(), keep);
    }
    if submissions.len() >= keep {
        assert(latest(frames + submissions, keep) =~= submissions.subrange(
            submissions.len() - keep,
            submissions.len() as int,
        ));
    }
}

/// The region of the selected object: the foreground is eroded, narrowed
/// to the connected region around the click where the click falls on the
/// grid, and dilated again. A click off the grid narrows nothing.
pub open spec fn selection(
    width: int,
    height: int,
    foreground: Seq<bool>,
    click_x: int,
    click_y: int,
) -> Seq<bool> {
    let core = eroded(width, height, foreground, KERNEL_RADIUS as int);
    let kept = if in_grid(width, height, click_x, click_y) {
        isolated(width, height, core, click_x, click_y)
    } else {
        core
    };
    dilated(width, height, kept, KERNEL_RADIUS as int)
}

/// The input's own samples wherever the region holds the pixel and the
/// sample is confident, and the background sample everywhere else. A pixel
/// for which a flag is missing counts as outside the region, or as not
/// confident.
pub open spec fn composited<T>(
    region: Seq<bool>,
    confident: Seq<bool>,
    input: Seq<T>,
    background: T,
) -> Seq<T> {
    Seq::new(
        input.len(),
        |i: int|
            if i < region.len() && region[i] && i < confident.len() && confident[i] {
                input[i]
            } else {
                background
            },
    )
}

/// Whether the three masks of a frame each have one entry for every pixel.
pub open spec fn frame_fits(
    width: int,
    height: int,
    input_len: nat,
    foreground_len: nat,
    confident_len: nat,
) -> bool {
    input_len == width * height && foreground_len == width * height && confident_len == width
        * height
}

/// The refined mask of a frame. A frame whose masks do not fit the grid
/// comes back as its input.
pub open spec fn refined<T>(
    width: int,
    height: int,
    input: Seq<T>,
    foreground: Seq<bool>,
    confident: Seq<bool>,
    click_x: int,
    click_y: int,
    background: T,
) -> Seq<T> {
    if frame_fits(width, height, input.len(), foreground.len(), confident.len()) {
        composited(selection(width, height, foreground, click_x, click_y), confident, input, background)
    } else {
        input
    }
}

/// Re-applies the input's samples to a region: the result holds the
/// input's sample wherever the region holds the pixel and the sample is
/// flagged as confident, and `background` everywhere else.
pub fn composite<T: Copy>(region: &[bool], confident: &[bool], input_mask: &[T], background: T) -> (out:
    Vec<T>)
    ensures
        out@ == composited(region@, confident@, input_mask@, background),
{
    let mut out: Vec<T> = Vec::new();
    let mut i: usize = 0;
    while i < input_mask.len()
        invariant
            i <= input_mask@.len(),
            out@.len() == i,
            forall|j: int|
                0 <= j < i ==> out@[j] == composited(
                    region@,
                    confident@,
                    input_mask@,
                    background,
                )[j],
        decreases input_mask@.len() - i,
    {
        let inside: bool = i < region.len() && region[i] && i < confident.len() && confident[i];
        let sample: T = if inside { input_mask[i] } else { background };
        out.push(sample);
        i = i + 1;
    }
    out
}

impl<T> View for SubjectRefiner<T> {
    type V = RefinerState<T>;

    closed spec fn view(&self) -> RefinerState<T> {
        RefinerState {
            width: self.width as nat,
            height: self.height as nat,
            max_history: self.max_history as nat,
            frames: Seq::new(self.history@.len(), |k: int| self.history@[k]@),
        }
    }
}

impl<T> SubjectRefiner<T> {
    #[verifier::type_invariant]
    spec fn well_formed(&self) -> bool {
        &&& self.max_history >= 1
        &&& self.history@.len() <= self.max_history
        &&& forall|k: int|
            0 <= k < self.history@.len() ==> (#[trigger] self.history@[k])@.len() == self.width
                * self.height
    }

    /// Makes a refiner for masks of `width` by `height` pixels that keeps
    /// up to `max_history` frames. A bound of zero counts as one.
    pub fn new(width: usize, height: usize, max_history: usize) -> (refiner: Self)
        ensures
            refiner@.width == width,
            refiner@.height == height,
            refiner@.max_history == if max_history == 0 { 1 } else { max_history },
            refiner@.frames == Seq::<Seq<T>>::empty(),
    {
        SubjectRefiner {
            width,
            height,
            history: Vec::new(),
            max_history: if max_history == 0 { 1 } else { max_history },
        }
    }

    /// The number of pixels in a row of the grid.
    pub fn width(&self) -> (width: usize)
        ensures
            width == self@.width,
    {
        self.width
    }

    /// The number of rows of the grid.
    pub fn height(&self) -> (height: usize)
        ensures
            height == self@.height,
    {
        self.height
    }

    /// The number of frames that the history holds at most.
    pub fn max_history(&self) -> (bound: usize)
        ensures
            bound == self@.max_history,
            bound >= 1,
    {
        proof {
            use_type_invariant(self);
        }
        self.max_history
    }

    /// The frames that the history holds, oldest first. There are no more
    /// of them than the bound, and each has one sample for every pixel.
    pub fn history(&self) -> (frames: &Vec<Vec<T>>)
        ensures
            frames@.len() == self@.frames.len(),
            forall|k: int| 0 <= k < frames@.len() ==> (#[trigger] frames@[k])@ == self@.frames[k],
            self@.frames.len() <= self@.max_history,
            forall|k: int|
                0 <= k < self@.frames.len() ==> (#[trigger] self@.frames[k]).len() == self@.width
                    * self@.height,
    {
        proof {
            use_type_invariant(self);
        }
        &self.history
    }

    /// Whether a mask of `len` samples has one sample for every pixel.
    pub fn fits(&self, len: usize) -> (fitting: bool)
        ensures
            fitting == (len == self@.width * self@.height),
    {
        match self.width.checked_mul(self.height) {
            Some(size) => len == size,
            None => false,
        }
    }

    /// Takes a frame into the history. A frame that has one sample for
    /// every pixel goes to the end of the history, and the oldest frame
    /// leaves where the bound would be passed. Any other frame is handed
    /// back as it came, and the history stays as it was.
    pub fn submit(&mut self, frame: Vec<T>) -> (outcome: Result<(), Vec<T>>)
        ensures
            final(self)@.width == old(self)@.width,
            final(self)@.height == old(self)@.height,
            final(self)@.max_history == old(self)@.max_history,
            final(self)@.frames.len() <= old(self)@.max_history,
            frame@.len() == old(self)@.width * old(self)@.height ==> outcome is Ok
                && final(self)@.frames == with_frame(
                old(self)@.frames,
                frame@,
                old(self)@.max_history,
            ),
            frame@.len() != old(self)@.width * old(self)@.height ==> outcome == Err::<(), Vec<T>>(
                frame,
            ) && final(self)@ == old(self)@,
    {
        proof {
            use_type_invariant(&*self);
        }
        if !self.fits(frame.len()) {
            return Err(frame);
        }
        let mut frames: Vec<Vec<T>> = Vec::new();
        std::mem::swap(&mut self.history, &mut frames);
        if frames.len() >= self.max_history {
            frames.remove(0);
        }
        frames.push(frame);
        self.history = frames;
        Ok(())
    }
}

impl<T: Copy> SubjectRefiner<T> {
    /// Refines one frame. `input_mask` holds the frame's samples,
    /// `foreground` says for each pixel whether the smoothed mask passes the
    /// foreground threshold, `confident` says for each pixel whether the
    /// input's own sample passes the confidence threshold, and the click is
    /// given in pixels.
    ///
    /// The foreground is eroded, narrowed to the connected region around
    /// the click, and dilated again; the result keeps the input's sample
    /// where that region holds the pixel and the sample is confident, and
    /// is `background` elsewhere. A click off the grid narrows nothing. A
    /// frame whose masks do not each have one entry for every pixel comes
    /// back as its input.
    pub fn refine_mask(
        &self,
        input_mask: &[T],
        foreground: &[bool],
        confident: &[bool],
        click_x: usize,
        click_y: usize,
        background: T,
    ) -> (output: Vec<T>)
        ensures
            output@ == refined(
                self@.width as int,
                self@.height as int,
                input_mask@,
                foreground@,
                confident@,
                click_x as int,
                click_y as int,
                background,
            ),
            output@.len() == input_mask@.len(),
            input_mask@.len() != self@.width * self@.height ==> output@ == input_mask@,
            frame_fits(
                self@.width as int,
                self@.height as int,
                input_mask@.len(),
                foreground@.len(),
                confident@.len(),
            ) && !in_grid(self@.width as int, self@.height as int, click_x as int, click_y as int)
                ==> output@ == composited(
                dilated(
                    self@.width as int,
                    self@.height as int,
                    eroded(
                        self@.width as int,
                        self@.height as int,
                        foreground@,
                        KERNEL_RADIUS as int,
                    ),
                    KERNEL_RADIUS as int,
                ),
                confident@,
                input_mask@,
                background,
            ),
    {
        if !(self.fits(input_mask.len()) && self.fits(foreground.len()) && self.fits(
            confident.len(),
        )) {
            return slice_to_vec(input_mask);
        }
        let core = erode(self.width, self.height, foreground, KERNEL_RADIUS);
        let kept = if click_x < self.width && click_y < self.height {
            flood_fill(self.width, self.height, core.as_slice(), click_x, click_y)
        } else {
            core
        };
        let region = dilate(self.width, self.height, kept.as_slice(), KERNEL_RADIUS);
        composite(region.as_slice(), confident, input_mask, background)
    }
}

} // verus!
