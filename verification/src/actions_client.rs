//! Messages exchanged between the client and the server.
use vstd::prelude::*;

verus! {

/// Messages sent by the client to the server.
#[derive(Debug, Clone)]
pub enum ClientMsg {
    LoadImage { filename: String, data: Vec<u8> },
    FindPositions { image_index: usize },
    SolveOcr { image_index: usize },
}

/// Messages sent by the server to the client.
#[derive(Debug, Clone)]
pub enum ServerMsg {
    ImageLoaded { new_index: usize },
    Positions(Vec<(usize, usize, usize, usize)>),
    OcrResult(String),
    Error(String),
}

} // verus!
