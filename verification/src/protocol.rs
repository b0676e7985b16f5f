//! The shared data shape and the two closed message sets exchanged between
//! server and clients, plus the per-destination carrier envelope.
//!
//! Coordinates, velocities and the rotation are plain integer values in
//! protocol units; the presentation layer outside the library decides how a
//! unit maps onto the screen.

use vstd::prelude::*;

verus! {

/// An RGB color, one byte per channel.
#[derive(Clone, Copy, PartialEq, Eq, Structural, Debug)]
pub struct Color {
    pub r: u8,
    pub g: u8,
    pub b: u8,
}

/// A planar vector in protocol units, used for positions and velocities.
#[derive(Clone, Copy, PartialEq, Eq, Structural, Debug)]
pub struct Vec2 {
    pub x: i32,
    pub y: i32,
}

/// A replicated entity (a "ship"): identity, color, kinematic state.
///
/// Identity is assigned once by the server and never reused while the owning
/// session is alive. Entities are value-copied on every transmission.
#[derive(Clone, Copy, PartialEq, Eq, Structural, Debug)]
pub struct Spaceship {
    pub id: u16,
    pub color: Color,
    pub position: Vec2,
    pub velocity: Vec2,
    pub rotation: i32,
}

/// Messages a client sends to the server.
#[derive(Clone, Copy, PartialEq, Eq, Structural, Debug)]
pub enum ClientToServerMessage {
    Hello,
    UpdateSpaceship(Spaceship),
    Goodbye,
}

/// Messages the server sends to a client.
#[derive(Clone, Copy, PartialEq, Eq, Structural, Debug)]
pub enum ServerToClientMessage {
    AssignSpaceship(u16),
    UpdateSpaceship(Spaceship),
    AddSpaceship(Spaceship),
    RemoveSpaceship(u16),
    Goodbye,
}

/// One tick's transmission envelope to one destination: a `general` batch
/// broadcast identically to every peer, and an optional `specific` batch
/// meant only for this destination.
#[derive(PartialEq, Eq, Debug)]
pub struct MessageCarrier {
    pub general: Vec<ServerToClientMessage>,
    pub specific: Option<Vec<ServerToClientMessage>>,
}

/// The mathematical value of a carrier: both batches as sequences.
pub ghost struct CarrierView {
    pub general: Seq<ServerToClientMessage>,
    pub specific: Option<Seq<ServerToClientMessage>>,
}

impl View for MessageCarrier {
    type V = CarrierView;

    open spec fn view(&self) -> CarrierView {
        CarrierView {
            general: self.general@,
            specific: match self.specific {
                Some(v) => Some(v@),
                None => None,
            },
        }
    }
}

} // verus!
