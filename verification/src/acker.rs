//! The receiver's record of the ack it last built.
use vstd::prelude::*;

use crate::value::{Ack, AckModel};

verus! {

/// Holds the receiver's current ack, once there is one.
#[derive(Debug)]
pub struct Acker {
    current_ack: Option<Ack>,
}

impl View for Acker {
    type V = Option<AckModel>;

    closed spec fn view(&self) -> Option<AckModel> {
        match self.current_ack {
            Some(a) => Some(a@),
            None => None,
        }
    }
}

impl Acker {
    /// An acker with no ack yet.
    pub fn new() -> (a: Self)
        ensures
            a@ is None,
    {
        Self { current_ack: None }
    }
}

} // verus!
