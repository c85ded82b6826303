//! The decisions of the recognition server: it remembers which image the
//! client views and says what each request calls for.
use vstd::prelude::*;

verus! {

/// A request to the server, without the channel on which it is answered.
#[derive(Debug)]
pub enum EngineRequest {
    /// Store a matrix as an image under a chosen name.
    Load,
    /// The client now views image `index`.
    UpdateViewedImage { index: usize },
    /// Read the binary word of the viewed image.
    Solve,
    /// Locate the digits of the viewed image.
    Find,
}

/// What the server does for a request.
#[derive(Debug, PartialEq, Eq)]
pub enum EngineStep {
    /// Convert the matrix to an image file and move it under its name.
    ConvertAndStore,
    /// Nothing beyond the change of state.
    Nothing,
    /// Answer with the reading of image `index`.
    RunOcr { index: usize },
    /// Answer with the digit positions of image `index`.
    ExtractPositions { index: usize },
    /// Answer that there is no image to work on.
    ReplyNone,
}

/// The server's state: the image the client views, if any.
pub struct EngineState {
    pub current_viewed_index: Option<usize>,
}

impl EngineState {
    /// A server that knows of no viewed image.
    pub fn new() -> (s: Self)
        ensures
            s.current_viewed_index is None,
    {
        EngineState { current_viewed_index: None }
    }

    /// Takes in a request: records the viewed image, and says what to do.
    pub fn handle(&mut self, request: &EngineRequest) -> (step: EngineStep)
        ensures
            match *request {
                EngineRequest::UpdateViewedImage { index } => final(self).current_viewed_index == Some(index)
                    && step == EngineStep::Nothing,
                EngineRequest::Load => final(self).current_viewed_index == old(self).current_viewed_index
                    && step == EngineStep::ConvertAndStore,
                EngineRequest::Solve => final(self).current_viewed_index == old(self).current_viewed_index
                    && step == match old(self).current_viewed_index {
                    Some(i) => EngineStep::RunOcr { index: i },
                    None => EngineStep::ReplyNone,
                },
                EngineRequest::Find => final(self).current_viewed_index == old(self).current_viewed_index
                    && step == match old(self).current_viewed_index {
                    Some(i) => EngineStep::ExtractPositions { index: i },
                    None => EngineStep::ReplyNone,
                },
            },
    {
        match request {
            EngineRequest::Load => EngineStep::ConvertAndStore,
            EngineRequest::UpdateViewedImage { index } => {
                self.current_viewed_index = Some(*index);
                EngineStep::Nothing
            },
            EngineRequest::Solve => match self.current_viewed_index {
                Some(i) => EngineStep::RunOcr { index: i },
                None => EngineStep::ReplyNone,
            },
            EngineRequest::Find => match self.current_viewed_index {
                Some(i) => EngineStep::ExtractPositions { index: i },
                None => EngineStep::ReplyNone,
            },
        }
    }
}

} // verus!
