//! The packets that nodes exchange.
use crate::radix::{decimal, law_decimal_round_trip, to_decimal};
use crate::text::{
    bool_text, law_number_lists_are_told_apart, lemma_before_the_comma, listed, numbers_text, quoted, show_bool, show_list, show_numbers, show_str, texts,
};
use crate::{ChunkId, FileHash, PeerId};
use vstd::prelude::*;
use vstd::string::*;

verus! {

#[derive(PartialEq, Eq)]
pub enum Packet {
    Request(Request),
    Response(Response),
}

#[derive(PartialEq, Eq)]
pub enum Request {
    /// New server that needs a list of all
    /// of this server's peers and chunks.
    ///
    /// It will send over a list of all of the chunks it has.
    Seed { chunks: Vec<(FileHash, String, Vec<ChunkId>)>, send_peers: bool },
    /// A request for a bunch of chunks. Send them back in the same order.
    Chunks(FileHash, Vec<ChunkId>),
    SetFileName(FileHash, String),
    /// The chunks that follow are to be stored. Their data comes in the order
    /// of these numbers, each as a [`Request::WriteChunk`] or as a
    /// [`Response::Chunk`].
    WriteChunks(FileHash, Vec<ChunkId>),
    /// The data of a chunk that is to be stored, sent in order as the above
    /// vec of chunk ids.
    WriteChunk(Vec<u8>),
    HasChunk(FileHash, ChunkId),
    /// Speedtest request, send the data back as-is.
    Speedtest(Vec<u8>),
}

#[derive(PartialEq, Eq)]
pub enum Response {
    Seed {
        /// The socket addresses of the peers, in their textual form.
        peers: Vec<String>,
        /// For each file its hash, its name, and its chunks with the peers
        /// that have them.
        chunks: Vec<(FileHash, String, Vec<(ChunkId, Vec<PeerId>)>)>,
    },
    /// The data of a chunk, after its SHA-256 digest. The last chunk of a file
    /// may have less than 512 bytes.
    Chunk([u8; 32], Vec<u8>),
    NoOp,
    /// Response to a speedtest request.
    Speedtest(Vec<u8>),
}

/// A file that a node has chunks of: its hash, its name, and the chunks.
pub type Offer = (FileHash, Seq<char>, Seq<ChunkId>);

/// A chunk and the peers that have it.
pub type Holding = (ChunkId, Seq<PeerId>);

/// A file, its name, and the holders of its chunks.
pub type Listing = (FileHash, Seq<char>, Seq<Holding>);

pub open spec fn offer_view(offer: (FileHash, String, Vec<ChunkId>)) -> Offer {
    (offer.0, offer.1@, offer.2@)
}

pub open spec fn offers_view(offers: Seq<(FileHash, String, Vec<ChunkId>)>) -> Seq<Offer> {
    Seq::new(offers.len(), |i: int| offer_view(offers[i]))
}

pub open spec fn holding_view(holding: (ChunkId, Vec<PeerId>)) -> Holding {
    (holding.0, holding.1@)
}

pub open spec fn holdings_view(holdings: Seq<(ChunkId, Vec<PeerId>)>) -> Seq<Holding> {
    Seq::new(holdings.len(), |i: int| holding_view(holdings[i]))
}

pub open spec fn listing_view(
    listing: (FileHash, String, Vec<(ChunkId, Vec<PeerId>)>),
) -> Listing {
    (listing.0, listing.1@, holdings_view(listing.2@))
}

pub open spec fn listings_view(
    listings: Seq<(FileHash, String, Vec<(ChunkId, Vec<PeerId>)>)>,
) -> Seq<Listing> {
    Seq::new(listings.len(), |i: int| listing_view(listings[i]))
}

/// What a [`Request`] says.
pub enum RequestView {
    Seed { chunks: Seq<Offer>, send_peers: bool },
    Chunks(FileHash, Seq<ChunkId>),
    SetFileName(FileHash, Seq<char>),
    WriteChunks(FileHash, Seq<ChunkId>),
    WriteChunk(Seq<u8>),
    HasChunk(FileHash, ChunkId),
    Speedtest(Seq<u8>),
}

/// What a [`Response`] says.
pub enum ResponseView {
    Seed { peers: Seq<Seq<char>>, chunks: Seq<Listing> },
    Chunk(Seq<u8>, Seq<u8>),
    NoOp,
    Speedtest(Seq<u8>),
}

/// What a [`Packet`] says.
pub enum PacketView {
    Request(RequestView),
    Response(ResponseView),
}

impl View for Request {
    type V = RequestView;

    open spec fn view(&self) -> RequestView {
        match *self {
            Request::Seed { chunks, send_peers } => RequestView::Seed {
                chunks: offers_view(chunks@),
                send_peers,
            },
            Request::Chunks(hash, ids) => RequestView::Chunks(hash, ids@),
            Request::SetFileName(hash, name) => RequestView::SetFileName(hash, name@),
            Request::WriteChunks(hash, ids) => RequestView::WriteChunks(hash, ids@),
            Request::WriteChunk(data) => RequestView::WriteChunk(data@),
            Request::HasChunk(hash, id) => RequestView::HasChunk(hash, id),
            Request::Speedtest(data) => RequestView::Speedtest(data@),
        }
    }
}

impl View for Response {
    type V = ResponseView;

    open spec fn view(&self) -> ResponseView {
        match *self {
            Response::Seed { peers, chunks } => ResponseView::Seed {
                peers: texts(peers@),
                chunks: listings_view(chunks@),
            },
            Response::Chunk(sha, data) => ResponseView::Chunk(sha@, data@),
            Response::NoOp => ResponseView::NoOp,
            Response::Speedtest(data) => ResponseView::Speedtest(data@),
        }
    }
}

impl View for Packet {
    type V = PacketView;

    open spec fn view(&self) -> PacketView {
        match *self {
            Packet::Request(request) => PacketView::Request(request@),
            Packet::Response(response) => PacketView::Response(response@),
        }
    }
}

impl From<Request> for Packet {
    fn from(req: Request) -> (packet: Packet) {
        Packet::Request(req)
    }
}

impl vstd::std_specs::convert::FromSpecImpl<Request> for Packet {
    open spec fn obeys_from_spec() -> bool {
        true
    }

    open spec fn from_spec(req: Request) -> Packet {
        Packet::Request(req)
    }
}

impl From<Response> for Packet {
    fn from(res: Response) -> (packet: Packet) {
        Packet::Response(res)
    }
}

impl vstd::std_specs::convert::FromSpecImpl<Response> for Packet {
    open spec fn obeys_from_spec() -> bool {
        true
    }

    open spec fn from_spec(res: Response) -> Packet {
        Packet::Response(res)
    }
}

/// How an [`Offer`] is shown.
pub open spec fn offer_text(offer: Offer) -> Seq<char> {
    "("@ + decimal(offer.0 as nat) + ", "@ + quoted(offer.1) + ", "@ + numbers_text(offer.2)
        + ")"@
}

/// How a [`Holding`] is shown.
pub open spec fn holding_text(holding: Holding) -> Seq<char> {
    "("@ + decimal(holding.0 as nat) + ", "@ + numbers_text(holding.1) + ")"@
}

/// How the chunks of a [`Listing`] are shown.
pub open spec fn holdings_text(holdings: Seq<Holding>) -> Seq<char> {
    listed(Seq::new(holdings.len(), |i: int| holding_text(holdings[i])))
}

/// How a [`Listing`] is shown.
pub open spec fn listing_text(listing: Listing) -> Seq<char> {
    "("@ + decimal(listing.0 as nat) + ", "@ + quoted(listing.1) + ", "@ + holdings_text(listing.2)
        + ")"@
}

/// How a request is shown in a log: the data that it carries is left out.
pub open spec fn request_text(request: RequestView) -> Seq<char> {
    match request {
        RequestView::SetFileName(hash, name) => "SetFileName("@ + decimal(hash as nat) + ", "@
            + quoted(name) + ")"@,
        RequestView::Seed { chunks, send_peers } => "Seed { chunks: "@ + listed(
            Seq::new(chunks.len(), |i: int| offer_text(chunks[i])),
        ) + ", send_peers: "@ + bool_text(send_peers) + " }"@,
        RequestView::Chunks(hash, ids) => "Chunks("@ + decimal(hash as nat) + ", "@ + numbers_text(
            ids,
        ) + ")"@,
        RequestView::WriteChunks(hash, ids) => "WriteChunks("@ + decimal(hash as nat) + ", "@
            + numbers_text(ids) + ")"@,
        RequestView::WriteChunk(_) => "WriteChunk"@,
        RequestView::HasChunk(hash, id) => "HasChunk("@ + decimal(hash as nat) + ", "@ + decimal(
            id as nat,
        ) + ")"@,
        RequestView::Speedtest(_) => "Speedtest"@,
    }
}

/// How a response is shown in a log: the data that it carries is left out.
pub open spec fn response_text(response: ResponseView) -> Seq<char> {
    match response {
        ResponseView::Seed { peers, chunks } => "Seed { peers: "@ + listed(peers) + ", chunks: "@
            + listed(Seq::new(chunks.len(), |i: int| listing_text(chunks[i]))) + " }"@,
        ResponseView::Chunk(..) => "Chunk"@,
        ResponseView::NoOp => "NoOp"@,
        ResponseView::Speedtest(_) => "Speedtest"@,
    }
}

/// How a packet is shown in a log.
pub open spec fn packet_text(packet: PacketView) -> Seq<char> {
    match packet {
        PacketView::Request(request) => "Request("@ + request_text(request) + ")"@,
        PacketView::Response(response) => "Response("@ + response_text(response) + ")"@,
    }
}

fn show_offer(offer: &(FileHash, String, Vec<ChunkId>)) -> (text: String)
    ensures
        text@ == offer_text(offer_view(*offer)),
{
    let mut text = "(".to_owned();
    text.append(to_decimal(offer.0).as_str());
    text.append(", ");
    text.append(show_str(offer.1.as_str()).as_str());
    text.append(", ");
    text.append(show_numbers(&offer.2).as_str());
    text.append(")");
    text
}

fn show_holding(holding: &(ChunkId, Vec<PeerId>)) -> (text: String)
    ensures
        text@ == holding_text(holding_view(*holding)),
{
    let mut text = "(".to_owned();
    text.append(to_decimal(holding.0 as u128).as_str());
    text.append(", ");
    text.append(show_numbers(&holding.1).as_str());
    text.append(")");
    text
}

fn show_listing(listing: &(FileHash, String, Vec<(ChunkId, Vec<PeerId>)>)) -> (text: String)
    ensures
        text@ == listing_text(listing_view(*listing)),
{
    let holdings = &listing.2;
    let mut items: Vec<String> = Vec::new();
    for i in 0..holdings.len()
        invariant
            items.len() == i,
            forall|j: int|
                0 <= j < i ==> #[trigger] items[j]@ == holding_text(holding_view(holdings[j])),
    {
        items.push(show_holding(&holdings[i]));
    }
    let ghost held = holdings_view(holdings@);
    assert(texts(items@) =~= Seq::new(held.len(), |i: int| holding_text(held[i])));
    let mut text = "(".to_owned();
    text.append(to_decimal(listing.0).as_str());
    text.append(", ");
    text.append(show_str(listing.1.as_str()).as_str());
    text.append(", ");
    text.append(show_list(&items).as_str());
    text.append(")");
    text
}

impl Request {
    /// The request as it is shown in a log.
    pub fn fmt(&self) -> (text: String)
        ensures
            text@ == request_text(self@),
    {
        match self {
            Request::SetFileName(file_hash, file_name) => {
                let mut text = "SetFileName(".to_owned();
                text.append(to_decimal(*file_hash).as_str());
                text.append(", ");
                text.append(show_str(file_name.as_str()).as_str());
                text.append(")");
                text
            },
            Request::Seed { chunks, send_peers } => {
                let mut items: Vec<String> = Vec::new();
                for i in 0..chunks.len()
                    invariant
                        items.len() == i,
                        forall|j: int|
                            0 <= j < i ==> #[trigger] items[j]@ == offer_text(
                                offer_view(chunks[j]),
                            ),
                {
                    items.push(show_offer(&chunks[i]));
                }
                let ghost offers = offers_view(chunks@);
                assert(texts(items@) =~= Seq::new(offers.len(), |i: int| offer_text(offers[i])));
                let mut text = "Seed { chunks: ".to_owned();
                text.append(show_list(&items).as_str());
                text.append(", send_peers: ");
                text.append(show_bool(*send_peers));
                text.append(" }");
                text
            },
            Request::Chunks(file_hash, chunk_ids) => {
                let mut text = "Chunks(".to_owned();
                text.append(to_decimal(*file_hash).as_str());
                text.append(", ");
                text.append(show_numbers(chunk_ids).as_str());
                text.append(")");
                text
            },
            Request::WriteChunks(file_hash, chunk_ids) => {
                let mut text = "WriteChunks(".to_owned();
                text.append(to_decimal(*file_hash).as_str());
                text.append(", ");
                text.append(show_numbers(chunk_ids).as_str());
                text.append(")");
                text
            },
            Request::WriteChunk(_) => "WriteChunk".to_owned(),
            Request::HasChunk(file_hash, chunk_id) => {
                let mut text = "HasChunk(".to_owned();
                text.append(to_decimal(*file_hash).as_str());
                text.append(", ");
                text.append(to_decimal(*chunk_id as u128).as_str());
                text.append(")");
                text
            },
            Request::Speedtest(_) => "Speedtest".to_owned(),
        }
    }
}

impl Response {
    /// The response as it is shown in a log.
    pub fn fmt(&self) -> (text: String)
        ensures
            text@ == response_text(self@),
    {
        match self {
            Response::Seed { peers, chunks } => {
                let mut items: Vec<String> = Vec::new();
                for i in 0..chunks.len()
                    invariant
                        items.len() == i,
                        forall|j: int|
                            0 <= j < i ==> #[trigger] items[j]@ == listing_text(
                                listing_view(chunks[j]),
                            ),
                {
                    items.push(show_listing(&chunks[i]));
                }
                let ghost listings = listings_view(chunks@);
                assert(texts(items@) =~= Seq::new(
                    listings.len(),
                    |i: int| listing_text(listings[i]),
                ));
                let mut text = "Seed { peers: ".to_owned();
                text.append(show_list(peers).as_str());
                text.append(", chunks: ");
                text.append(show_list(&items).as_str());
                text.append(" }");
                text
            },
            Response::Chunk(..) => "Chunk".to_owned(),
            Response::NoOp => "NoOp".to_owned(),
            Response::Speedtest(_) => "Speedtest".to_owned(),
        }
    }
}

impl Packet {
    /// The packet as it is shown in a log.
    pub fn fmt(&self) -> (text: String)
        ensures
            text@ == packet_text(self@),
    {
        match self {
            Packet::Request(request) => {
                let mut text = "Request(".to_owned();
                text.append(request.fmt().as_str());
                text.append(")");
                text
            },
            Packet::Response(response) => {
                let mut text = "Response(".to_owned();
                text.append(response.fmt().as_str());
                text.append(")");
                text
            },
        }
    }
}

/// From what is logged of a request one can tell which chunks of which file it
/// is about.
pub proof fn law_requests_are_told_apart(
    a: FileHash,
    b: FileHash,
    ids_a: Seq<ChunkId>,
    ids_b: Seq<ChunkId>,
    id_a: ChunkId,
    id_b: ChunkId,
)
    ensures
        request_text(RequestView::Chunks(a, ids_a)) == request_text(RequestView::Chunks(b, ids_b))
            ==> a == b && ids_a == ids_b,
        request_text(RequestView::WriteChunks(a, ids_a)) == request_text(
            RequestView::WriteChunks(b, ids_b),
        ) ==> a == b && ids_a == ids_b,
        request_text(RequestView::HasChunk(a, id_a)) == request_text(
            RequestView::HasChunk(b, id_b),
        ) ==> a == b && id_a == id_b,
{
    if request_text(RequestView::Chunks(a, ids_a)) == request_text(RequestView::Chunks(b, ids_b)) {
        lemma_fields("Chunks("@, a, numbers_text(ids_a), b, numbers_text(ids_b));
        law_number_lists_are_told_apart(ids_a, ids_b);
    }
    if request_text(RequestView::WriteChunks(a, ids_a)) == request_text(
        RequestView::WriteChunks(b, ids_b),
    ) {
        lemma_fields("WriteChunks("@, a, numbers_text(ids_a), b, numbers_text(ids_b));
        law_number_lists_are_told_apart(ids_a, ids_b);
    }
    if request_text(RequestView::HasChunk(a, id_a)) == request_text(
        RequestView::HasChunk(b, id_b),
    ) {
        lemma_fields("HasChunk("@, a, decimal(id_a as nat), b, decimal(id_b as nat));
        law_decimal_round_trip(id_a as nat);
        law_decimal_round_trip(id_b as nat);
    }
}

proof fn lemma_fields(
    name: Seq<char>,
    a: FileHash,
    field_a: Seq<char>,
    b: FileHash,
    field_b: Seq<char>,
)
    requires
        name + decimal(a as nat) + ", "@ + field_a + ")"@ == name + decimal(b as nat) + ", "@
            + field_b + ")"@,
    ensures
        a == b,
        field_a == field_b,
{
    reveal_strlit(", ");
    reveal_strlit(")");
    law_decimal_round_trip(a as nat);
    law_decimal_round_trip(b as nat);
    let rest_a = ", "@ + field_a + ")"@;
    let rest_b = ", "@ + field_b + ")"@;
    let text_a = name + decimal(a as nat) + ", "@ + field_a + ")"@;
    let text_b = name + decimal(b as nat) + ", "@ + field_b + ")"@;
    assert(decimal(a as nat) + rest_a =~= text_a.skip(name.len() as int));
    assert(decimal(b as nat) + rest_b =~= text_b.skip(name.len() as int));
    lemma_before_the_comma(decimal(a as nat), rest_a, decimal(b as nat), rest_b);
    assert(field_a =~= rest_a.subrange(2, rest_a.len() - 1));
    assert(field_b =~= rest_b.subrange(2, rest_b.len() - 1));
}

/// What is logged of offers and listings tells which chunks and which peers they
/// are about.
pub proof fn law_offers_are_told_apart(
    hash: FileHash,
    name: Seq<char>,
    ids_a: Seq<ChunkId>,
    ids_b: Seq<ChunkId>,
    id: ChunkId,
)
    ensures
        offer_text((hash, name, ids_a)) == offer_text((hash, name, ids_b)) ==> ids_a == ids_b,
        holding_text((id, ids_a)) == holding_text((id, ids_b)) ==> ids_a == ids_b,
{
    reveal_strlit(")");
    if offer_text((hash, name, ids_a)) == offer_text((hash, name, ids_b)) {
        let start = "("@ + decimal(hash as nat) + ", "@ + quoted(name) + ", "@;
        let text = offer_text((hash, name, ids_a));
        assert(numbers_text(ids_a) =~= text.subrange(start.len() as int, text.len() - 1));
        assert(numbers_text(ids_b) =~= text.subrange(start.len() as int, text.len() - 1));
        law_number_lists_are_told_apart(ids_a, ids_b);
    }
    if holding_text((id, ids_a)) == holding_text((id, ids_b)) {
        let start = "("@ + decimal(id as nat) + ", "@;
        let text = holding_text((id, ids_a));
        assert(numbers_text(ids_a) =~= text.subrange(start.len() as int, text.len() - 1));
        assert(numbers_text(ids_b) =~= text.subrange(start.len() as int, text.len() - 1));
        law_number_lists_are_told_apart(ids_a, ids_b);
    }
}

/// The data that packets carry is not logged: nothing of it shows.
pub proof fn law_data_is_not_logged(sha: Seq<u8>, a: Seq<u8>, other: Seq<u8>, b: Seq<u8>)
    ensures
        request_text(RequestView::WriteChunk(a)) == request_text(RequestView::WriteChunk(b)),
        request_text(RequestView::Speedtest(a)) == request_text(RequestView::Speedtest(b)),
        response_text(ResponseView::Chunk(sha, a)) == response_text(ResponseView::Chunk(other, b)),
        response_text(ResponseView::Speedtest(a)) == response_text(ResponseView::Speedtest(b)),
{
}

} // verus!
