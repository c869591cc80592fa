//! Peers, and what is read from the connections to them.
use crate::digest::{addr_to_u64, peer_id_of};
use crate::packet::{Packet, PacketView, Request, RequestView};
use crate::PeerId;
use vstd::prelude::*;

verus! {

/// A node that this one is connected to.
pub struct Peer {
    addr: String,
}

impl View for Peer {
    type V = Seq<char>;

    /// The socket address of the peer, in its textual form.
    closed spec fn view(&self) -> Seq<char> {
        self.addr@
    }
}

impl Peer {
    pub fn new(addr: String) -> (peer: Peer)
        ensures
            peer@ == addr@,
    {
        Peer { addr }
    }

    pub fn id(&self) -> (id: PeerId)
        ensures
            id == peer_id_of(self@),
    {
        addr_to_u64(self.addr.as_str())
    }

    pub fn addr(&self) -> (addr: &str)
        ensures
            addr@ == self@,
    {
        self.addr.as_str()
    }
}

/// How many packets a speed test sends, and waits for in return.
pub const SPEEDTEST_PACKETS: u64 = 1024;

/// How many bytes each packet of a speed test carries.
pub const SPEEDTEST_SIZE: usize = 1024;

/// The packet that a speed test sends: it carries zeros.
pub fn speedtest_request() -> (request: Request)
    ensures
        request@ == RequestView::Speedtest(Seq::new(SPEEDTEST_SIZE as nat, |i: int| 0u8)),
{
    let data: Vec<u8> = vec![0u8; SPEEDTEST_SIZE];
    assert(data@ =~= Seq::new(SPEEDTEST_SIZE as nat, |i: int| 0u8));
    Request::Speedtest(data)
}

/// How reading from a connection can fail.
#[derive(Clone, Copy, Debug, PartialEq, Eq, Structural)]
pub enum ReadFailure {
    UnexpectedEof,
    BrokenPipe,
    ConnectionReset,
    Other,
}

/// Whether nothing more can come from a connection after such a failure.
pub fn connection_lost(failure: ReadFailure) -> (lost: bool)
    ensures
        lost == (failure != ReadFailure::Other),
{
    match failure {
        ReadFailure::UnexpectedEof => true,
        ReadFailure::BrokenPipe => true,
        ReadFailure::ConnectionReset => true,
        ReadFailure::Other => false,
    }
}

/// What was found when a peer was asked, without waiting, for a packet.
pub enum Received {
    /// No packet has come.
    Nothing,
    /// No packet will come any more.
    Disconnected,
    Packet(Packet),
    /// Reading from the connection failed.
    ReadFailed,
    /// What came is no packet; a description of the error.
    Malformed(String),
}

/// What a [`Received`] says.
pub enum ReceivedView {
    Nothing,
    Disconnected,
    Packet(PacketView),
    ReadFailed,
    Malformed(Seq<char>),
}

impl View for Received {
    type V = ReceivedView;

    open spec fn view(&self) -> ReceivedView {
        match *self {
            Received::Nothing => ReceivedView::Nothing,
            Received::Disconnected => ReceivedView::Disconnected,
            Received::Packet(packet) => ReceivedView::Packet(packet@),
            Received::ReadFailed => ReceivedView::ReadFailed,
            Received::Malformed(error) => ReceivedView::Malformed(error@),
        }
    }
}

} // verus!
