//! The pure core of the client connection protocol: the session lifecycle
//! state machine and the decision function that maps one ready event to the
//! action the connection loop must perform. The loop itself (transport,
//! tasks, channels) lives outside the verified library.

use vstd::prelude::*;

use crate::diff::WorldDiff;

verus! {

/// A frame received on the host-to-client push stream.
#[derive(Debug, PartialEq)]
pub enum ServerPush {
    /// The host accepted the connection.
    Accepted,
    /// The host denied the connection, with a reason.
    Denied(String),
    /// The host announced its protocol version.
    ServerVersion(u64),
}

/// A protocol error that terminates the session.
#[derive(Debug, PartialEq, Eq, Structural, Clone, Copy)]
pub enum ProtoError {
    /// The host's protocol version differs and the caller demanded equality.
    VersionMismatch,
}

/// The lifecycle of one client-to-host session.
#[derive(Debug, PartialEq)]
pub enum ClientProtoState {
    /// Waiting for the host's accept/deny decision.
    Pending(String),
    /// The session is established.
    Connected(String),
    /// The session ended: denied, dropped, or gracefully closed.
    Disconnected,
}

impl ClientProtoState {
    pub fn is_pending(&self) -> (r: bool)
        ensures
            r == (self is Pending),
    {
        match self {
            ClientProtoState::Pending(_) => true,
            _ => false,
        }
    }

    pub fn is_connected(&self) -> (r: bool)
        ensures
            r == (self is Connected),
    {
        match self {
            ClientProtoState::Connected(_) => true,
            _ => false,
        }
    }

    pub fn is_disconnected(&self) -> (r: bool)
        ensures
            r == (self is Disconnected),
    {
        match self {
            ClientProtoState::Disconnected => true,
            _ => false,
        }
    }

    /// Process one push-stream frame. A pending session becomes connected on
    /// accept and disconnected on deny; a version announcement differing from
    /// the client's is fatal exactly when the caller demanded it; everything
    /// else is ignorable control chatter.
    pub fn process_push(
        self,
        fail_on_version_mismatch: bool,
        client_version: u64,
        push: ServerPush,
    ) -> (r: Result<ClientProtoState, ProtoError>)
        ensures
            match push {
                ServerPush::Accepted => {
                    &&& r is Ok
                    &&& (self is Pending ==> r->Ok_0 is Connected && (r->Ok_0)->Connected_0@
                        == self->Pending_0@)
                    &&& (!(self is Pending) ==> r->Ok_0 == self)
                },
                ServerPush::Denied(_) => {
                    &&& r is Ok
                    &&& (self is Pending ==> r->Ok_0 is Disconnected)
                    &&& (!(self is Pending) ==> r->Ok_0 == self)
                },
                ServerPush::ServerVersion(v) => {
                    &&& (v != client_version && fail_on_version_mismatch) <==> (r is Err)
                    &&& (r is Err ==> r->Err_0 == ProtoError::VersionMismatch)
                    &&& (r is Ok ==> r->Ok_0 == self)
                },
            },
    {
        match push {
            ServerPush::Accepted => match self {
                ClientProtoState::Pending(user_id) => Ok(ClientProtoState::Connected(user_id)),
                other => Ok(other),
            },
            ServerPush::Denied(_) => match self {
                ClientProtoState::Pending(_) => Ok(ClientProtoState::Disconnected),
                other => Ok(other),
            },
            ServerPush::ServerVersion(v) => {
                if v != client_version && fail_on_version_mismatch {
                    Err(ProtoError::VersionMismatch)
                } else {
                    Ok(self)
                }
            },
        }
    }
}

/// A control message, sent only on the client's outbound control stream.
#[derive(Debug, PartialEq)]
pub enum ClientRequest {
    /// Ask the host to accept this user's session.
    Connect(String),
    /// Announce a graceful disconnect.
    Disconnect,
}

/// Enter the session lifecycle: the session starts pending on the host's
/// decision, and a `Connect` request carrying the user id must be sent on
/// the control stream.
pub fn begin_session(user_id: String) -> (r: (ClientProtoState, ClientRequest))
    ensures
        r.0 is Pending,
        r.0->Pending_0@ == user_id@,
        r.1 is Connect,
        r.1->Connect_0@ == user_id@,
{
    let request = ClientRequest::Connect(user_id.clone());
    (ClientProtoState::Pending(user_id), request)
}

/// An outbound proxy request: a bidirectional exchange, a one-way stream
/// write, or a best-effort datagram, each tagged with its channel id.
#[derive(Debug, PartialEq)]
pub enum ProxyMessage {
    RequestBi { id: u32, data: Vec<u8> },
    RequestUni { id: u32, data: Vec<u8> },
    Datagram { id: u32, data: Vec<u8> },
}

/// One ready event of the connected session's event loop. The loop waits on
/// all sources at once; no ordering is guaranteed across kinds.
#[derive(Debug, PartialEq)]
pub enum ClientEvent {
    /// A frame arrived on the push stream.
    Push(ServerPush),
    /// A diff arrived on the raw diff stream.
    Diff(WorldDiff),
    /// An unreliable datagram arrived.
    Datagram(Vec<u8>),
    /// The peer opened a bidirectional stream.
    BiOpen,
    /// The peer opened a unidirectional stream.
    UniOpen,
    /// The local proxy queue produced an outbound request.
    Proxy(ProxyMessage),
    /// The caller asked for a graceful disconnect.
    ControlDisconnect,
}

/// The action the unverified loop must perform after one step.
#[derive(Debug, PartialEq)]
pub enum ClientAction {
    /// Nothing to do.
    Idle,
    /// Apply the diff to the mirrored world, in arrival order.
    ApplyDiff(WorldDiff),
    /// Hand the datagram to the session's datagram handler.
    DispatchDatagram(Vec<u8>),
    /// Accept the peer's bidirectional stream.
    AcceptBi,
    /// Accept the peer's unidirectional stream.
    AcceptUni,
    /// Perform the outbound proxy request on its own task.
    SendProxy(ProxyMessage),
    /// Send the control message on the control stream.
    SendControl(ClientRequest),
}

/// One step of the connected session: dispatch a ready event to the action
/// the loop must perform, and the state the session is in afterwards. Only
/// push frames change the state; a manual disconnect sends a notice and
/// leaves the loop to exit when the transport closes.
pub fn connection_step(
    state: ClientProtoState,
    fail_on_version_mismatch: bool,
    client_version: u64,
    event: ClientEvent,
) -> (r: Result<(ClientProtoState, ClientAction), ProtoError>)
    ensures
        match event {
            ClientEvent::Push(p) => match p {
                ServerPush::Accepted => {
                    &&& r is Ok
                    &&& (r->Ok_0).1 == ClientAction::Idle
                    &&& (state is Pending ==> (r->Ok_0).0 is Connected
                        && ((r->Ok_0).0)->Connected_0@ == state->Pending_0@)
                    &&& (!(state is Pending) ==> (r->Ok_0).0 == state)
                },
                ServerPush::Denied(_) => {
                    &&& r is Ok
                    &&& (r->Ok_0).1 == ClientAction::Idle
                    &&& (state is Pending ==> (r->Ok_0).0 is Disconnected)
                    &&& (!(state is Pending) ==> (r->Ok_0).0 == state)
                },
                ServerPush::ServerVersion(v) => {
                    &&& ((v != client_version && fail_on_version_mismatch) <==> (r is Err))
                    &&& (r is Err ==> r->Err_0 == ProtoError::VersionMismatch)
                    &&& (r is Ok ==> (r->Ok_0).0 == state && (r->Ok_0).1 == ClientAction::Idle)
                },
            },
            ClientEvent::Diff(d) => {
                &&& r is Ok
                &&& (r->Ok_0).0 == state
                &&& (state is Connected ==> (r->Ok_0).1 == ClientAction::ApplyDiff(d))
                &&& (!(state is Connected) ==> (r->Ok_0).1 == ClientAction::Idle)
            },
            ClientEvent::Datagram(d) => {
                &&& r is Ok
                &&& (r->Ok_0).0 == state
                &&& (state is Connected ==> (r->Ok_0).1 == ClientAction::DispatchDatagram(d))
                &&& (!(state is Connected) ==> (r->Ok_0).1 == ClientAction::Idle)
            },
            ClientEvent::BiOpen => {
                &&& r is Ok
                &&& (r->Ok_0).0 == state
                &&& (state is Connected ==> (r->Ok_0).1 == ClientAction::AcceptBi)
                &&& (!(state is Connected) ==> (r->Ok_0).1 == ClientAction::Idle)
            },
            ClientEvent::UniOpen => {
                &&& r is Ok
                &&& (r->Ok_0).0 == state
                &&& (state is Connected ==> (r->Ok_0).1 == ClientAction::AcceptUni)
                &&& (!(state is Connected) ==> (r->Ok_0).1 == ClientAction::Idle)
            },
            ClientEvent::Proxy(p) => {
                &&& r is Ok
                &&& (r->Ok_0).0 == state
                &&& (state is Connected ==> (r->Ok_0).1 == ClientAction::SendProxy(p))
                &&& (!(state is Connected) ==> (r->Ok_0).1 == ClientAction::Idle)
            },
            ClientEvent::ControlDisconnect => {
                &&& r is Ok
                &&& (r->Ok_0).0 == state
                &&& (state is Connected ==> (r->Ok_0).1 == ClientAction::SendControl(
                    ClientRequest::Disconnect,
                ))
                &&& (!(state is Connected) ==> (r->Ok_0).1 == ClientAction::Idle)
            },
        },
{
    let connected = state.is_connected();
    match event {
        ClientEvent::Push(push) => {
            let next = state.process_push(fail_on_version_mismatch, client_version, push)?;
            Ok((next, ClientAction::Idle))
        },
        ClientEvent::Diff(d) => {
            if connected {
                Ok((state, ClientAction::ApplyDiff(d)))
            } else {
                Ok((state, ClientAction::Idle))
            }
        },
        ClientEvent::Datagram(d) => {
            if connected {
                Ok((state, ClientAction::DispatchDatagram(d)))
            } else {
                Ok((state, ClientAction::Idle))
            }
        },
        ClientEvent::BiOpen => {
            if connected {
                Ok((state, ClientAction::AcceptBi))
            } else {
                Ok((state, ClientAction::Idle))
            }
        },
        ClientEvent::UniOpen => {
            if connected {
                Ok((state, ClientAction::AcceptUni))
            } else {
                Ok((state, ClientAction::Idle))
            }
        },
        ClientEvent::Proxy(p) => {
            if connected {
                Ok((state, ClientAction::SendProxy(p)))
            } else {
                Ok((state, ClientAction::Idle))
            }
        },
        ClientEvent::ControlDisconnect => {
            if connected {
                Ok((state, ClientAction::SendControl(ClientRequest::Disconnect)))
            } else {
                Ok((state, ClientAction::Idle))
            }
        },
    }
}

} // verus!
