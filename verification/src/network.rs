//! Addresses, sockets and the failures that the peer reports of the network.

use vstd::prelude::*;

verus! {

/// An IPv4 address, first octet first.
pub type IpAddress = [u8; 4];

/// A TCP or UDP port.
pub type Port = u16;

/// A socket handle that the peer hands out.
pub type Socket = u8;

/// What the peer reports of the network.
#[derive(Clone, Copy, PartialEq, Eq, Structural, Debug)]
pub enum NetworkError {
    /// The peer found no address for the host name.
    DnsResolveFailed,
    /// The peer could not open the connection.
    ConnectFailed,
    /// The peer could not close the connection.
    DisconnectFailed,
}

/// The transport that a client socket is opened with.
#[derive(Clone, Copy, PartialEq, Eq, Structural, Debug)]
pub enum TransportMode {
    Tcp,
    Udp,
    Tls,
}

impl TransportMode {
    /// The byte that names the mode on the wire.
    pub open spec fn wire(self) -> u8 {
        match self {
            TransportMode::Tcp => 0,
            TransportMode::Udp => 1,
            TransportMode::Tls => 2,
        }
    }

    /// The byte that names the mode on the wire.
    pub fn as_byte(self) -> (b: u8)
        ensures
            b == self.wire(),
    {
        match self {
            TransportMode::Tcp => 0,
            TransportMode::Udp => 1,
            TransportMode::Tls => 2,
        }
    }
}

/// The state of a TCP connection as the peer reports it.
#[derive(Clone, Copy, PartialEq, Eq, Structural, Debug)]
pub enum ConnectionState {
    Closed,
    Listening,
    SynSent,
    SynReceived,
    Established,
    FinWait1,
    FinWait2,
    CloseWait,
    Closing,
    LastAck,
    TimeWait,
}

impl ConnectionState {
    /// The state that a reply byte names; a byte that names none reads as
    /// `Closed`.
    pub open spec fn of_byte(b: u8) -> ConnectionState {
        if b == 1 {
            ConnectionState::Listening
        } else if b == 2 {
            ConnectionState::SynSent
        } else if b == 3 {
            ConnectionState::SynReceived
        } else if b == 4 {
            ConnectionState::Established
        } else if b == 5 {
            ConnectionState::FinWait1
        } else if b == 6 {
            ConnectionState::FinWait2
        } else if b == 7 {
            ConnectionState::CloseWait
        } else if b == 8 {
            ConnectionState::Closing
        } else if b == 9 {
            ConnectionState::LastAck
        } else if b == 10 {
            ConnectionState::TimeWait
        } else {
            ConnectionState::Closed
        }
    }

    /// Decodes the state byte of a reply.
    pub fn from_byte(b: u8) -> (state: ConnectionState)
        ensures
            state == Self::of_byte(b),
    {
        match b {
            1 => ConnectionState::Listening,
            2 => ConnectionState::SynSent,
            3 => ConnectionState::SynReceived,
            4 => ConnectionState::Established,
            5 => ConnectionState::FinWait1,
            6 => ConnectionState::FinWait2,
            7 => ConnectionState::CloseWait,
            8 => ConnectionState::Closing,
            9 => ConnectionState::LastAck,
            10 => ConnectionState::TimeWait,
            _ => ConnectionState::Closed,
        }
    }
}

/// The state of the Wi-Fi link as the peer reports it.
#[derive(Clone, Copy, PartialEq, Eq, Structural, Debug)]
pub enum ConnectionStatus {
    NoEsp32,
    Idle,
    NoActiveSsid,
    ScanCompleted,
    Connected,
    Failed,
    Lost,
    Disconnected,
    ApListening,
    ApConnected,
    ApFailed,
    Invalid,
}

impl ConnectionStatus {
    /// The status that a reply byte names; a byte that names none reads as
    /// `Invalid`.
    pub open spec fn of_byte(b: u8) -> ConnectionStatus {
        if b == 0 {
            ConnectionStatus::Idle
        } else if b == 1 {
            ConnectionStatus::NoActiveSsid
        } else if b == 2 {
            ConnectionStatus::ScanCompleted
        } else if b == 3 {
            ConnectionStatus::Connected
        } else if b == 4 {
            ConnectionStatus::Failed
        } else if b == 5 {
            ConnectionStatus::Lost
        } else if b == 6 {
            ConnectionStatus::Disconnected
        } else if b == 7 {
            ConnectionStatus::ApListening
        } else if b == 8 {
            ConnectionStatus::ApConnected
        } else if b == 9 {
            ConnectionStatus::ApFailed
        } else if b == 255 {
            ConnectionStatus::NoEsp32
        } else {
            ConnectionStatus::Invalid
        }
    }

    /// Decodes the status byte of a reply.
    pub fn from_byte(b: u8) -> (status: ConnectionStatus)
        ensures
            status == Self::of_byte(b),
    {
        match b {
            0 => ConnectionStatus::Idle,
            1 => ConnectionStatus::NoActiveSsid,
            2 => ConnectionStatus::ScanCompleted,
            3 => ConnectionStatus::Connected,
            4 => ConnectionStatus::Failed,
            5 => ConnectionStatus::Lost,
            6 => ConnectionStatus::Disconnected,
            7 => ConnectionStatus::ApListening,
            8 => ConnectionStatus::ApConnected,
            9 => ConnectionStatus::ApFailed,
            255 => ConnectionStatus::NoEsp32,
            _ => ConnectionStatus::Invalid,
        }
    }
}

} // verus!
