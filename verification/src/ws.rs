//! The editor's connection to its collaboration room.
use vstd::prelude::*;

use crate::record::same_text;

verus! {

/// The address of a room's socket: secure when the page itself was served
/// over HTTPS, on the page's host.
pub open spec fn room_socket_address(protocol: Seq<char>, host: Seq<char>, room_id: Seq<char>) -> Seq<char> {
    (if protocol == "https:"@ {
        "wss"@
    } else {
        "ws"@
    }) + "://"@ + host + "/editor/"@ + room_id + "/ws"@
}

/// The address of a room's socket, from the protocol (`"https:"`,
/// `"http:"`) and host of the page: see [`room_socket_address`].
pub fn room_ws_url(protocol: &str, host: &str, room_id: &str) -> (url: String)
    ensures
        url@ == room_socket_address(protocol@, host@, room_id@),
{
    let mut url = if same_text(protocol, "https:") {
        String::from_str("wss")
    } else {
        String::from_str("ws")
    };
    url.append("://");
    url.append(host);
    url.append("/editor/");
    url.append(room_id);
    url.append("/ws");
    url
}

} // verus!
