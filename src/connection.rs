//! What a client connection does with each message, in each of its roles:
//! before it identifies itself, as a camera, and as a dispatcher.

use vstd::prelude::*;
use crate::camera::{Camera, PlateRecord};
use crate::client::{ClientModel, Message};
use crate::server;

verus! {

/// What the connection does in answer to a message.
#[derive(Clone, Debug, PartialEq, Eq)]
pub enum Action {
    /// Nothing.
    Ignore,
    /// Reply with this message.
    Error(server::Message),
    /// Start sending heartbeats every this many deciseconds.
    Heartbeat(u32),
    /// Become this camera.
    SpawnCamera(Camera),
    /// Become a dispatcher for these roads.
    SpawnDispatcher(Vec<u16>),
    /// Report this sighting by this camera to the collector.
    Report(PlateRecord, Camera),
}

/// Whether `a` is an error reply with the text `text`.
pub open spec fn is_error(a: Action, text: Seq<char>) -> bool {
    a matches Action::Error(server::Message::Error(s)) && s@ == text
}

/// What a heartbeat request does: the handle is taken on the first request;
/// a zero interval then starts nothing, another starts heartbeats; a repeated
/// request is an error.
pub open spec fn heartbeat_answer(d: u32, available: bool, a: Action, left: bool) -> bool {
    if available {
        !left && (d == 0 ==> a == Action::Ignore) && (d != 0 ==> a == Action::Heartbeat(d))
    } else {
        !left && is_error(a, "You already specified a heartbeat"@)
    }
}

fn error(text: &str) -> (a: Action)
    ensures
        is_error(a, text@),
{
    Action::Error(server::Message::Error(text.to_owned()))
}

fn heartbeat(d: u32, heartbeat_available: &mut bool) -> (a: Action)
    ensures
        heartbeat_answer(d, *old(heartbeat_available), a, *final(heartbeat_available)),
{
    if *heartbeat_available {
        *heartbeat_available = false;
        if d == 0 {
            Action::Ignore
        } else {
            Action::Heartbeat(d)
        }
    } else {
        error("You already specified a heartbeat")
    }
}

/// What a connection that has not identified itself does with `msg`.
/// `heartbeat_available` is the one-shot heartbeat handle.
pub fn action(msg: Message, heartbeat_available: &mut bool) -> (a: Action)
    ensures
        match msg@ {
            ClientModel::Plate(_, _) => is_error(a, "You are no camera"@) && *final(heartbeat_available) == *old(heartbeat_available),
            ClientModel::WantHeartbeat(d) => heartbeat_answer(
                d,
                *old(heartbeat_available),
                a,
                *final(heartbeat_available),
            ),
            ClientModel::IAmCamera(road, mile, limit) => a == Action::SpawnCamera(
                Camera { road, mile, limit },
            ) && *final(heartbeat_available) == *old(heartbeat_available),
            ClientModel::IAmDispatcher(roads) => (a matches Action::SpawnDispatcher(r) && r@
                == roads) && *final(heartbeat_available) == *old(heartbeat_available),
        },
{
    match msg {
        Message::Plate(_) => error("You are no camera"),
        Message::WantHeartbeat(d) => heartbeat(d, heartbeat_available),
        Message::IAmCamera(c) => Action::SpawnCamera(c),
        Message::IAmDispatcher(roads) => Action::SpawnDispatcher(roads),
    }
}

/// A connection that identified itself as a camera.
pub struct CameraClient {
    pub cam: Camera,
}

impl CameraClient {
    pub fn new(cam: Camera) -> (r: CameraClient)
        ensures
            r.cam == cam,
    {
        CameraClient { cam }
    }

    /// What the camera connection does with `msg`: a sighting is reported
    /// with this camera, a heartbeat request is handled as always, and any
    /// identification is an error.
    pub fn handle_client_message(&self, msg: Message, heartbeat_available: &mut bool) -> (a: Action)
        ensures
            match msg@ {
                ClientModel::Plate(p, t) => (a matches Action::Report(r, c) && r.plate@ == p
                    && r.timestamp == t && c == self.cam) && *final(heartbeat_available) == *old(heartbeat_available),
                ClientModel::WantHeartbeat(d) => heartbeat_answer(
                    d,
                    *old(heartbeat_available),
                    a,
                    *final(heartbeat_available),
                ),
                ClientModel::IAmCamera(_, _, _) => is_error(a, "Yes, you are (a camera)"@) && *final(heartbeat_available) == *old(heartbeat_available),
                ClientModel::IAmDispatcher(_) => is_error(a, "No you're not (a dispatcher)"@)
                    && *final(heartbeat_available) == *old(heartbeat_available),
            },
    {
        match msg {
            Message::Plate(record) => Action::Report(record, self.cam),
            Message::WantHeartbeat(d) => heartbeat(d, heartbeat_available),
            Message::IAmCamera(_) => error("Yes, you are (a camera)"),
            Message::IAmDispatcher(_) => error("No you're not (a dispatcher)"),
        }
    }
}

/// What a dispatcher connection does with `msg`: a heartbeat request is
/// handled as always, anything else is an error.
pub fn dispatcher_action(msg: Message, heartbeat_available: &mut bool) -> (a: Action)
    ensures
        match msg@ {
            ClientModel::Plate(_, _) => is_error(a, "You Sir Dispatcher are confused"@) && *final(heartbeat_available) == *old(heartbeat_available),
            ClientModel::WantHeartbeat(d) => heartbeat_answer(
                d,
                *old(heartbeat_available),
                a,
                *final(heartbeat_available),
            ),
            ClientModel::IAmCamera(_, _, _) => is_error(a, "No you're not (a camera)"@) && *final(heartbeat_available) == *old(heartbeat_available),
            ClientModel::IAmDispatcher(_) => is_error(a, "Yes, you are (a dispatcher)"@) && *final(heartbeat_available) == *old(heartbeat_available),
        },
{
    match msg {
        Message::Plate(_) => error("You Sir Dispatcher are confused"),
        Message::WantHeartbeat(d) => heartbeat(d, heartbeat_available),
        Message::IAmCamera(_) => error("No you're not (a camera)"),
        Message::IAmDispatcher(_) => error("Yes, you are (a dispatcher)"),
    }
}

/// A zero-interval heartbeat request starts no heartbeat and is no error;
/// the handle is used up all the same.
pub proof fn lemma_zero_heartbeat(a: Action, left: bool)
    requires
        heartbeat_answer(0, true, a, left),
    ensures
        a == Action::Ignore,
        !left,
{
}

} // verus!
