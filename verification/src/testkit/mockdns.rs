//! What a minimal DNS responder answers.
//!
//! It answers `A` queries for any name with one configured address, and everything else with an
//! empty answer. That is enough for a resolver to accept it and not enough for anything else.
use vstd::prelude::*;
use vstd::slice::slice_subrange;

verus! {

/// The offset behind the labels of a name that starts at `at`, where it is well formed. Compression
/// pointers are not valid in a question.
pub open spec fn name_end(query: Seq<u8>, at: int) -> Option<int>
    decreases query.len() - at,
{
    if at < 0 || at >= query.len() {
        None
    } else if query[at] == 0 {
        Some(at + 1)
    } else if query[at] >= 0x40 || at + 1 + query[at] >= query.len() {
        None
    } else {
        name_end(query, at + 1 + query[at])
    }
}

/// What is asked: the offset behind the one question, where there is one that can be answered.
pub open spec fn question_end(query: Seq<u8>) -> Option<int> {
    if query.len() < 12 || query[4] != 0 || query[5] != 1 {
        None
    } else {
        match name_end(query, 12) {
            Some(at) => if at + 4 <= query.len() {
                Some(at + 4)
            } else {
                None
            },
            None => None,
        }
    }
}

/// The resource record that names an address: a pointer to the name of the question, type A, class
/// IN, thirty seconds to live, and the address.
pub open spec fn address_record(answer: Seq<u8>) -> Seq<u8> {
    seq![0xc0u8, 0x0c, 0, 1, 0, 1, 0, 0, 0, 30, 0, 4] + answer
}

/// A response: the id of the query, a standard answer without error, the question again, and the
/// address where one was asked for. A query for another type gets an empty answer, which is what a
/// resolver expects for a name that has none, and stops it waiting.
pub open spec fn response(query: Seq<u8>, answer: Seq<u8>) -> Option<Seq<u8>> {
    match question_end(query) {
        None => None,
        Some(end) => {
            let wanted = query[end - 4] == 0 && query[end - 3] == 1;
            let count: u8 = if wanted {
                1
            } else {
                0
            };
            let head = seq![query[0], query[1], 0x81, 0x80, 0, 1, 0, count, 0, 0, 0, 0];
            Some(
                head + query.subrange(12, end) + (if wanted {
                    address_record(answer)
                } else {
                    Seq::empty()
                }),
            )
        },
    }
}

/// Build a response to a query.
///
/// Returns `None` for anything too malformed to answer, which a real resolver would also drop.
pub fn respond(query: &[u8], answer: [u8; 4]) -> (out: Option<Vec<u8>>)
    ensures
        match response(query@, answer@) {
            Some(r) => out matches Some(o) && o@ == r,
            None => out is None,
        },
{
    let n: usize = query.len();
    if n < 12 || query[4] != 0 || query[5] != 1 {
        return None;
    }
    let mut at: usize = 12;
    loop
        invariant_except_break
            n == query@.len(),
            12 <= at,
            name_end(query@, 12) == name_end(query@, at as int),
            at <= n,
        invariant
            n == query@.len(),
        ensures
            name_end(query@, 12) == Some(at as int),
            12 < at <= n,
        decreases n - at,
    {
        if at >= n {
            return None;
        }
        let len: u8 = query[at];
        if len == 0 {
            at = at + 1;
            break;
        }
        if len >= 0x40 || len as usize >= n - at - 1 {
            return None;
        }
        at = at + 1 + len as usize;
    }
    if n - at < 4 {
        return None;
    }
    let end: usize = at + 4;
    let wanted = query[at] == 0 && query[at + 1] == 1;
    let count: u8 = if wanted {
        1
    } else {
        0
    };
    let mut out: Vec<u8> = vec![query[0], query[1], 0x81, 0x80, 0, 1, 0, count, 0, 0, 0, 0];
    assert(out@ =~= seq![query@[0], query@[1], 0x81, 0x80, 0, 1, 0, count, 0, 0, 0, 0]);
    out.extend_from_slice(slice_subrange(query, 12, end));
    if wanted {
        let record: Vec<u8> = vec![0xc0, 0x0c, 0, 1, 0, 1, 0, 0, 0, 30, 0, 4];
        assert(record@ =~= seq![0xc0u8, 0x0c, 0, 1, 0, 1, 0, 0, 0, 30, 0, 4]);
        out.extend_from_slice(record.as_slice());
        out.extend_from_slice(answer.as_slice());
    }
    assert(out@ =~= response(query@, answer@)->0);
    Some(out)
}

/// A response always repeats the id and the question, so that the resolver can tell what it
/// answers.
pub proof fn responses_repeat_the_question(query: Seq<u8>, answer: Seq<u8>)
    requires
        response(query, answer) is Some,
    ensures
        response(query, answer)->0.take(2) == query.take(2),
        response(query, answer)->0.subrange(12, question_end(query)->0) == query.subrange(
            12,
            question_end(query)->0,
        ),
{
    lemma_name_end(query, 12);
    let end = question_end(query)->0;
    let r = response(query, answer)->0;
    assert(r.take(2) =~= query.take(2));
    assert(r.subrange(12, end) =~= query.subrange(12, end));
}

proof fn lemma_name_end(query: Seq<u8>, at: int)
    requires
        name_end(query, at) is Some,
    ensures
        at < name_end(query, at)->0 <= query.len(),
    decreases query.len() - at,
{
    if query[at] != 0 {
        lemma_name_end(query, at + 1 + query[at]);
    }
}

/// A name as it stands in a question: each label behind its length.
pub open spec fn labels_bytes(labels: Seq<Seq<u8>>) -> Seq<u8>
    decreases labels.len(),
{
    if labels.len() == 0 {
        Seq::empty()
    } else {
        seq![labels[0].len() as u8] + labels[0] + labels_bytes(labels.skip(1))
    }
}

proof fn lemma_labels(front: Seq<u8>, labels: Seq<Seq<u8>>, tail: Seq<u8>)
    requires
        forall|i: int| 0 <= i < labels.len() ==> 0 < (#[trigger] labels[i]).len() < 0x40,
    ensures
        name_end(front + labels_bytes(labels) + seq![0u8] + tail, front.len() as int) == Some(
            front.len() as int + labels_bytes(labels).len() + 1,
        ),
    decreases labels.len(),
{
    let query = front + labels_bytes(labels) + seq![0u8] + tail;
    let at = front.len() as int;
    if labels.len() == 0 {
        assert(query[at] == 0);
    } else {
        let first = labels[0];
        let rest = labels.skip(1);
        let more = front + (seq![first.len() as u8] + first);
        assert(labels[0].len() < 0x40);
        assert forall|i: int| 0 <= i < rest.len() implies 0 < (#[trigger] rest[i]).len() < 0x40 by {
            assert(rest[i] == labels[i + 1]);
        }
        lemma_labels(more, rest, tail);
        assert(query =~= more + labels_bytes(rest) + seq![0u8] + tail);
        assert(query[at] == first.len());
    }
}

/// A query with one question is answered with the id of the query, as a standard answer without
/// error, with the question again; and with the address, and nothing else, where it asks for that.
/// The name may have any labels that a name can have.
pub proof fn queries_for_addresses_get_the_address(
    head: Seq<u8>,
    labels: Seq<Seq<u8>>,
    kind: Seq<u8>,
    rest: Seq<u8>,
    answer: Seq<u8>,
)
    requires
        head.len() == 12,
        head[4] == 0 && head[5] == 1,
        forall|i: int| 0 <= i < labels.len() ==> 0 < (#[trigger] labels[i]).len() < 0x40,
        kind.len() == 4,
        answer.len() == 4,
    ensures
        ({
            let question = labels_bytes(labels) + seq![0u8] + kind;
            let r = response(head + question + rest, answer);
            let wanted = kind[0] == 0 && kind[1] == 1;
            &&& r matches Some(reply)
            &&& reply.take(2) == head.take(2)
            &&& reply.subrange(2, 6) == seq![0x81u8, 0x80, 0, 1]
            &&& reply.subrange(12, question.len() as int + 12) == question
            &&& wanted ==> reply.subrange(6, 8) == seq![0u8, 1] && reply.len() == 12
                + question.len() + 16 && reply.skip(reply.len() - 4) == answer
            &&& !wanted ==> reply.subrange(6, 8) == seq![0u8, 0] && reply.len() == 12
                + question.len()
        }),
{
    let name = labels_bytes(labels);
    let question = name + seq![0u8] + kind;
    let query = head + question + rest;
    lemma_labels(head, labels, kind + rest);
    assert(query =~= head + name + seq![0u8] + (kind + rest));
    let end = name.len() as int + 13;
    assert(name_end(query, 12) == Some(end));
    assert(query[4] == head[4] && query[5] == head[5]);
    assert(query[end] == kind[0] && query[end + 1] == kind[1]);
    assert(query.subrange(12, end + 4) =~= question);
    let reply = response(query, answer)->0;
    assert(reply.take(2) =~= head.take(2));
    assert(reply.subrange(2, 6) =~= seq![0x81u8, 0x80, 0, 1]);
    assert(reply.subrange(12, question.len() as int + 12) =~= question);
    if kind[0] == 0 && kind[1] == 1 {
        assert(reply.subrange(6, 8) =~= seq![0u8, 1]);
        assert(reply.skip(reply.len() - 4) =~= answer);
    } else {
        assert(reply.subrange(6, 8) =~= seq![0u8, 0]);
    }
}

/// What is too short for a header, or has not just one question, is dropped.
pub proof fn other_packets_are_dropped(query: Seq<u8>, answer: Seq<u8>)
    requires
        query.len() < 12 || query[4] != 0 || query[5] != 1,
    ensures
        response(query, answer) is None,
{
}

} // verus!
