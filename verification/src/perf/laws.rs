//! What holds of the client and the server together.

use crate::perf::buffer::contents;
use crate::perf::data::{filling, Data};
use crate::perf::server::{read, respond};
use crate::perf::wire::{header, law_headers_are_read_back};
use vstd::prelude::*;

verus! {

/// A client gets as many bytes as it asks for. When the server has read a request to its end, of
/// which the first buffer was the header of a request for `download` bytes, and then its response
/// ends and no sending failed, it has sent `download` bytes of filling.
pub proof fn law_clients_get_what_they_ask_for<'a, E>(
    download: u64,
    request: Seq<read::Event<E>>,
    bytes: u64,
    data: &'a Data,
    response: Seq<respond::Event<E>>,
)
    requires
        request.len() > 0,
        read::ReadReq::Header.awaits_all(request),
        request[0] matches read::Event::Header(Ok(Some(buffer))) && contents(buffer) == header(
            download,
        ),
        read::ReadReq::Header.reply_at(request, request.len() - 1) == read::Action::<E>::Return(
            Ok(bytes),
        ),
        respond::Respond::start(data, bytes).awaits_all(response),
        respond::all_sent(response),
        respond::Respond::start(data, bytes).after_all(response).ended,
    ensures
        respond::Respond::start(data, bytes).sent(response) == filling(download as nat),
{
    read::law_requests_are_read_to_the_end(request, request.len() - 1);
    law_headers_are_read_back(download);
    law_headers_are_read_back(bytes);
    respond::law_responses_are_complete(data, bytes, response);
}

} // verus!
