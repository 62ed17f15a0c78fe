use vstd::prelude::*;

use crate::markup::Highlight;
use crate::renderer::{events_fold, finish, ColorTagRenderer, HighlightEvent, RenderError};

verus! {

/// Outcome of one highlighting request.
#[derive(Clone, Copy, Debug, PartialEq, Eq)]
pub enum ErrorCode {
    Success,
    UnknownScope,
    Timeout,
    InvalidLanguage,
}

/// The code a render outcome is reported as: cancellation and opaque failures
/// count as a timeout.
pub open spec fn code_of(result: Result<(), RenderError>) -> ErrorCode {
    match result {
        Ok(()) => ErrorCode::Success,
        Err(RenderError::InvalidLanguage) => ErrorCode::InvalidLanguage,
        Err(_) => ErrorCode::Timeout,
    }
}

pub fn error_code(result: Result<(), RenderError>) -> (r: ErrorCode)
    ensures
        r == code_of(result),
{
    match result {
        Ok(()) => ErrorCode::Success,
        Err(RenderError::Cancelled) => ErrorCode::Timeout,
        Err(RenderError::InvalidLanguage) => ErrorCode::InvalidLanguage,
        Err(RenderError::Unknown) => ErrorCode::Timeout,
        Err(RenderError::MalformedEventStream) => ErrorCode::Timeout,
    }
}

/// Renders the engine's events afresh into `renderer`: nothing is touched when
/// the engine could not start (`events` is an error), reported as a timeout.
pub fn highlight_into(
    renderer: &mut ColorTagRenderer,
    events: &Result<Vec<Result<HighlightEvent, RenderError>>, RenderError>,
    source: &[u8],
    attrs: &Vec<Vec<u8>>,
    carriage_return: Option<Highlight>,
) -> (r: ErrorCode)
    requires
        old(renderer).wf(),
    ensures
        final(renderer).wf(),
        match events {
            Err(_) => r == ErrorCode::Timeout && *final(renderer) == *old(renderer),
            Ok(evs) => final(renderer).carriage_return_highlight == carriage_return && match events_fold(
                (Seq::empty(), seq![0usize], Seq::empty()),
                evs@,
                source@,
                attrs@,
                carriage_return,
            ) {
                Err(e) => r == code_of(Err(e)),
                Ok(s) => r == ErrorCode::Success && (final(renderer).html@, final(renderer).line_offsets@)
                    == finish(s.0, s.1),
            },
        },
{
    match events {
        Err(_) => ErrorCode::Timeout,
        Ok(evs) => {
            renderer.reset();
            renderer.set_carriage_return_highlight(carriage_return);
            let result = renderer.render(evs, source, attrs);
            error_code(result)
        },
    }
}

} // verus!
