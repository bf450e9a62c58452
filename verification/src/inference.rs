//! Inference: input checks, the resolution pyramid, the pixels on both sides
//! and the denoising schedule.
use crate::ieee::{is_in_unit_interval, law_singles_by_their_bits, single_in_unit_interval};
use crate::text::{decimal, push_decimal};
use vstd::prelude::*;

pub mod pixels;
pub mod pyramid;
pub mod schedule;
pub mod session;

pub use crate::inference::pixels::{predicted_values_to_bgra, prepare_input, PreparedInput};
pub use crate::inference::pyramid::{automatic_pyramid_plan, round_up, PyramidPlan};
pub use crate::inference::schedule::{
    denoise_sample, denoising_schedule, NoiseFraction, NoiseSchedule,
};
pub use crate::inference::session::InferenceSession;

verus! {

/// A pyramid stops shrinking once both dimensions are at or below this size.
pub const DEFAULT_RECURSION_STOP_SIZE: usize = 128;

/// The most denoising steps that one inference may take.
pub const MAX_DENOISING_STEPS: usize = 20;

/// Why an inference was refused or failed.
#[derive(Debug, Clone, PartialEq, Eq)]
pub enum InferenceError {
    InvalidArgument(String),
    Backend(String),
    Model(String),
}

/// The text that an [`InferenceError`] carries, by its kind.
pub enum InferenceErrorView {
    InvalidArgument(Seq<char>),
    Backend(Seq<char>),
    Model(Seq<char>),
}

impl View for InferenceError {
    type V = InferenceErrorView;

    open spec fn view(&self) -> InferenceErrorView {
        match self {
            InferenceError::InvalidArgument(text) => InferenceErrorView::InvalidArgument(text@),
            InferenceError::Backend(text) => InferenceErrorView::Backend(text@),
            InferenceError::Model(text) => InferenceErrorView::Model(text@),
        }
    }
}

/// How an error reads to a user.
pub open spec fn error_message(error: InferenceErrorView) -> Seq<char> {
    match error {
        InferenceErrorView::InvalidArgument(text) => text,
        InferenceErrorView::Backend(text) => "backend error: "@ + text,
        InferenceErrorView::Model(text) => "model error: "@ + text,
    }
}

impl InferenceError {
    /// The message to show for this error.
    pub fn message(&self) -> (message: String)
        ensures
            message@ == error_message(self@),
    {
        match self {
            InferenceError::InvalidArgument(text) => text.clone(),
            InferenceError::Backend(text) => {
                let mut out: String = "backend error: ".to_owned();
                out.append(text.as_str());
                out
            },
            InferenceError::Model(text) => {
                let mut out: String = "model error: ".to_owned();
                out.append(text.as_str());
                out
            },
        }
    }
}

/// What a caller chooses for one inference.
#[derive(Clone, Copy, Debug, PartialEq, Eq)]
pub struct InferenceOptions {
    /// The bits of the strength, a single between zero and one.
    pub strength: u32,
    /// What the noise is derived from.
    pub seed: u64,
    /// The number of denoising steps.
    pub denoising_steps: usize,
}

/// Why these options are refused, if they are.
pub open spec fn options_error(options: InferenceOptions) -> Option<InferenceErrorView> {
    if !single_in_unit_interval(options.strength) {
        Some(
            InferenceErrorView::InvalidArgument("strength must be finite and between 0 and 1"@),
        )
    } else if options.denoising_steps < 1 || options.denoising_steps > MAX_DENOISING_STEPS {
        Some(
            InferenceErrorView::InvalidArgument(
                "denoising_steps must be between 1 and "@ + decimal(MAX_DENOISING_STEPS as nat),
            ),
        )
    } else {
        None
    }
}

/// Refuses a strength outside the unit interval and a step count out of range.
pub fn validate_options(options: InferenceOptions) -> (result: Result<(), InferenceError>)
    ensures
        match options_error(options) {
            Some(expected) => result matches Err(error) && error@ == expected,
            None => result is Ok,
        },
{
    if !is_in_unit_interval(options.strength) {
        return Err(
            InferenceError::InvalidArgument(
                "strength must be finite and between 0 and 1".to_owned(),
            ),
        );
    }
    if options.denoising_steps < 1 || options.denoising_steps > MAX_DENOISING_STEPS {
        let mut message: String = "denoising_steps must be between 1 and ".to_owned();
        push_decimal(&mut message, MAX_DENOISING_STEPS);
        return Err(InferenceError::InvalidArgument(message));
    }
    Ok(())
}

/// Why an image of this size has no buffer, if it has none.
pub open spec fn byte_len_error(width: usize, height: usize) -> Option<InferenceErrorView> {
    if width == 0 || height == 0 {
        Some(
            InferenceErrorView::InvalidArgument("width and height must be greater than zero"@),
        )
    } else if width * height * 4 > usize::MAX {
        Some(InferenceErrorView::InvalidArgument("image byte length overflowed"@))
    } else {
        None
    }
}

/// The number of bytes in a BGRA image of this size.
pub fn bgra_byte_len(width: usize, height: usize) -> (result: Result<usize, InferenceError>)
    ensures
        match byte_len_error(width, height) {
            Some(expected) => result matches Err(error) && error@ == expected,
            None => result matches Ok(len) && len == width * height * 4,
        },
{
    if width == 0 || height == 0 {
        return Err(
            InferenceError::InvalidArgument(
                "width and height must be greater than zero".to_owned(),
            ),
        );
    }
    match checked_bgra_len(width, height) {
        Some(len) => Ok(len),
        None => Err(InferenceError::InvalidArgument("image byte length overflowed".to_owned())),
    }
}

/// `width * height * 4`, where that is representable.
pub(crate) fn checked_bgra_len(width: usize, height: usize) -> (len: Option<usize>)
    ensures
        match len {
            Some(len) => len == width * height * 4,
            None => width * height * 4 > usize::MAX,
        },
{
    match width.checked_mul(height) {
        Some(pixels) => pixels.checked_mul(4),
        None => None,
    }
}

/// Why a buffer of this length is refused, if it is.
pub open spec fn buffer_error(
    name: Seq<char>,
    len: nat,
    expected_len: nat,
) -> Option<InferenceErrorView> {
    if len != expected_len {
        Some(
            InferenceErrorView::InvalidArgument(
                name + " must contain exactly "@ + decimal(expected_len) + " bytes, got "@
                    + decimal(len),
            ),
        )
    } else {
        None
    }
}

/// Refuses a buffer that does not hold exactly `expected_len` bytes.
pub fn validate_buffer(name: &str, buffer: &[u8], expected_len: usize) -> (result: Result<
    (),
    InferenceError,
>)
    ensures
        match buffer_error(name@, buffer@.len(), expected_len as nat) {
            Some(expected) => result matches Err(error) && error@ == expected,
            None => result is Ok,
        },
{
    if buffer.len() != expected_len {
        let mut message: String = name.to_owned();
        message.append(" must contain exactly ");
        push_decimal(&mut message, expected_len);
        message.append(" bytes, got ");
        push_decimal(&mut message, buffer.len());
        return Err(InferenceError::InvalidArgument(message));
    }
    Ok(())
}

/// Options are accepted exactly if the strength is a number from zero to one and there are
/// from one to twenty steps.
pub proof fn law_options_are_accepted_in_range(options: InferenceOptions)
    ensures
        options_error(options) is None <==> (options.strength <= 0x3f80_0000 || options.strength
            == 0x8000_0000) && 1 <= options.denoising_steps && options.denoising_steps <= 20,
        options_error(options) matches Some(error) ==> error is InvalidArgument,
{
    law_singles_by_their_bits(options.strength);
}

/// An image has a buffer exactly if it has pixels and its bytes, four for each, can be
/// counted.
pub proof fn law_images_have_four_bytes_a_pixel(width: usize, height: usize)
    ensures
        byte_len_error(width, height) is None <==> width > 0 && height > 0 && 4 * (width * height)
            <= usize::MAX,
        byte_len_error(width, height) matches Some(error) ==> error is InvalidArgument,
{
}

/// A buffer is accepted exactly if it has the expected length.
pub proof fn law_buffers_have_their_exact_length(name: Seq<char>, len: nat, expected_len: nat)
    ensures
        buffer_error(name, len, expected_len) is None <==> len == expected_len,
        buffer_error(name, len, expected_len) matches Some(error) ==> error is InvalidArgument,
{
}

/// A message ends in the text of its error, and is nothing else where a caller's argument
/// was at fault.
pub proof fn law_messages_end_in_their_text(text: Seq<char>)
    ensures
        error_message(InferenceErrorView::InvalidArgument(text)) == text,
        error_message(InferenceErrorView::Backend(text)) == "backend error: "@ + text,
        error_message(InferenceErrorView::Model(text)) == "model error: "@ + text,
{
}

} // verus!
