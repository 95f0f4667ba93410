//! The heartbeat endpoint.
//!
//! Prefill tools probe it to decide whether a cache is present on the network. Its shape is given:
//! getting it wrong means those tools silently bypass the cache.
use crate::proxy::headers;
use crate::proxy::headers::HeaderMap;
use crate::text;
use vstd::prelude::*;
use vstd::utf8::*;

verus! {

pub const PATH: &'static str = "/lancache-heartbeat";

/// Whether a request target is the heartbeat.
pub fn is_heartbeat(path: &str) -> (out: bool)
    ensures
        out == (path@ == PATH@),
{
    text::same(path, PATH)
}

/// The head of the heartbeat response.
#[derive(Debug, PartialEq, Eq)]
pub struct Heartbeat {
    pub status: u16,
    pub headers: HeaderMap,
}

/// The lines of the heartbeat response: permissive CORS, because it is probed from browsers, and
/// the name of the host where it can stand in a header.
pub open spec fn heartbeat_lines(host: Seq<u8>) -> Seq<headers::Line> {
    let star = encode_utf8("*"@);
    let cors = seq![
        ("access-control-allow-origin"@, star),
        ("access-control-allow-headers"@, star),
        ("access-control-expose-headers"@, star),
    ];
    if headers::is_valid_value(host) {
        cors.push(("x-lancache-processed-by"@, host))
    } else {
        cors
    }
}

proof fn lemma_names()
    ensures
        text::lowered("access-control-allow-origin"@) == "access-control-allow-origin"@,
        text::lowered("access-control-allow-headers"@) == "access-control-allow-headers"@,
        text::lowered("access-control-expose-headers"@) == "access-control-expose-headers"@,
        text::lowered("x-lancache-processed-by"@) == "x-lancache-processed-by"@,
{
    reveal_strlit("access-control-allow-origin");
    reveal_strlit("access-control-allow-headers");
    reveal_strlit("access-control-expose-headers");
    reveal_strlit("x-lancache-processed-by");
    assert(text::lowered("access-control-allow-origin"@) =~= "access-control-allow-origin"@);
    assert(text::lowered("access-control-allow-headers"@) =~= "access-control-allow-headers"@);
    assert(text::lowered("access-control-expose-headers"@) =~= "access-control-expose-headers"@);
    assert(text::lowered("x-lancache-processed-by"@) =~= "x-lancache-processed-by"@);
}

/// The heartbeat response: 204 with the identifying header and permissive CORS.
pub fn respond(hostname: &str) -> (out: Heartbeat)
    ensures
        out.status == 204,
        out.headers@ == heartbeat_lines(encode_utf8(hostname@)),
{
    proof {
        lemma_names();
    }
    let mut lines = HeaderMap::new();
    lines.append("access-control-allow-origin", "*".as_bytes());
    lines.append("access-control-allow-headers", "*".as_bytes());
    lines.append("access-control-expose-headers", "*".as_bytes());
    if headers::valid_value(hostname.as_bytes()) {
        lines.append("x-lancache-processed-by", hostname.as_bytes());
    }
    assert(lines@ =~= heartbeat_lines(encode_utf8(hostname@)));
    Heartbeat { status: 204, headers: lines }
}

/// The heartbeat says that anyone may read it, and who answers where that can be written, and
/// nothing else.
pub proof fn heartbeats_may_be_read_by_anyone(host: Seq<u8>, line: headers::Line)
    ensures
        heartbeat_lines(host).contains(line) <==> {
            ||| line.1 == encode_utf8("*"@) && (line.0 == "access-control-allow-origin"@ || line.0
                == "access-control-allow-headers"@ || line.0 == "access-control-expose-headers"@)
            ||| line == ("x-lancache-processed-by"@, host) && forall|i: int|
                0 <= i < host.len() ==> (#[trigger] host[i] >= 0x20 && host[i] != 0x7f) || host[i]
                    == 0x09
        },
{
    let lines = heartbeat_lines(host);
    assert(headers::is_valid_value(host) <==> (forall|i: int|
        0 <= i < host.len() ==> (#[trigger] host[i] >= 0x20 && host[i] != 0x7f) || host[i]
            == 0x09));
    assert(lines[0].1 == encode_utf8("*"@) && lines[0].0 == "access-control-allow-origin"@);
    assert(lines[1].1 == encode_utf8("*"@) && lines[1].0 == "access-control-allow-headers"@);
    assert(lines[2].1 == encode_utf8("*"@) && lines[2].0 == "access-control-expose-headers"@);
    assert(lines[0] == (lines[0].0, lines[0].1) && lines[1] == (lines[1].0, lines[1].1) && lines[2]
        == (lines[2].0, lines[2].1));
    if headers::is_valid_value(host) {
        assert(lines[3] == ("x-lancache-processed-by"@, host));
    }
}

} // verus!
