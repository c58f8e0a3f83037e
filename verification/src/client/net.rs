//! What the client makes of the bytes that come in on its connection.
use crate::bytes::{append, tail_from, to_vec};
use crate::client::error::ClientError;
use crate::protocol::error::ProtocolError;
use crate::protocol::framing;
use crate::protocol::message::ClientMessage;
use vstd::prelude::*;

verus! {

/// Bytes that came in and are not yet taken.
pub struct FrameBuffer {
    buf: Vec<u8>,
}

impl View for FrameBuffer {
    type V = Seq<u8>;

    closed spec fn view(&self) -> Seq<u8> {
        self.buf@
    }
}

/// What taking a frame does: a whole frame's payload comes out and its bytes
/// go; while one is incomplete, more bytes are needed; a frame that can never
/// be complete is an error.
pub open spec fn frame_taken(
    before: Seq<u8>,
    after: Seq<u8>,
    r: Result<Option<Vec<u8>>, ClientError>,
) -> bool {
    match framing::decoded(before) {
        Ok((payload, n)) => (r matches Ok(Some(p)) && p@ == payload) && after == before.subrange(
            n,
            before.len() as int,
        ),
        Err(ProtocolError::Incomplete) => r matches Ok(None) && after == before,
        Err(e) => (r matches Err(ClientError::Protocol(x)) && x == e) && after == before,
    }
}

impl FrameBuffer {
    /// No bytes.
    pub fn new() -> (r: Self)
        ensures
            r@ == Seq::<u8>::empty(),
    {
        FrameBuffer { buf: Vec::new() }
    }

    /// Adds bytes that came in.
    pub fn push(&mut self, chunk: &[u8])
        ensures
            final(self)@ == old(self)@ + chunk@,
    {
        append(&mut self.buf, chunk);
    }

    /// Takes the payload of the next frame.
    pub fn take_frame(&mut self) -> (r: Result<Option<Vec<u8>>, ClientError>)
        ensures
            frame_taken(old(self)@, final(self)@, r),
    {
        let (payload, used): (Vec<u8>, usize) = match framing::decode(&self.buf) {
            Ok((p, n)) => (to_vec(p), n),
            Err(e) => {
                return match e {
                    ProtocolError::Incomplete => Ok(None),
                    _ => Err(ClientError::Protocol(e)),
                };
            },
        };
        self.buf = tail_from(&self.buf, used);
        Ok(Some(payload))
    }
}

/// A frame comes out as it went in, whatever comes behind it.
pub proof fn lemma_frame_comes_out(
    payload: Seq<u8>,
    rest: Seq<u8>,
    after: Seq<u8>,
    r: Result<Option<Vec<u8>>, ClientError>,
)
    requires
        payload.len() <= framing::MAX_FRAME_SIZE,
        frame_taken(framing::frame_of(payload) + rest, after, r),
    ensures
        r matches Ok(Some(p)) && p@ == payload,
        after == rest,
{
    framing::lemma_frame_round_trip(payload, rest);
    assert((framing::frame_of(payload) + rest).subrange(
        4 + payload.len() as int,
        (framing::frame_of(payload) + rest).len() as int,
    ) =~= rest);
}

// ---- Acknowledging -----------------------------------------------------------------

/// The ids to acknowledge once an envelope more was taken in.
pub open spec fn noted(ids: Seq<u64>, id: u64, ack: bool) -> Seq<u64> {
    if ack {
        ids.push(id)
    } else {
        ids
    }
}

/// The ids to acknowledge of a batch: those of the envelopes that are to be
/// acknowledged, in the order of the batch.
pub open spec fn acked_ids(ids: Seq<u64>, acks: Seq<bool>) -> Seq<u64>
    decreases ids.len(),
{
    if ids.len() == 0 || acks.len() != ids.len() {
        Seq::empty()
    } else {
        noted(acked_ids(ids.drop_last(), acks.drop_last()), ids.last(), acks.last())
    }
}

/// The ids to acknowledge once an envelope more was taken in.
pub fn note_ack(ids: Vec<u64>, id: u64, ack: bool) -> (r: Vec<u64>)
    ensures
        r@ == noted(ids@, id, ack),
{
    let mut out: Vec<u64> = ids;
    if ack {
        out.push(id);
    }
    out
}

/// The acknowledgement of envelopes, `None` where there are none.
pub fn ack_message(ids: Vec<u64>) -> (r: Option<ClientMessage>)
    ensures
        if ids@.len() == 0 {
            r is None
        } else {
            r matches Some(ClientMessage::Ack { envelope_ids }) && envelope_ids@ == ids@
        },
{
    if ids.len() == 0 {
        None
    } else {
        Some(ClientMessage::Ack { envelope_ids: ids })
    }
}

/// Noting the envelopes of a batch one by one gives the ids to acknowledge of the
/// batch: exactly those of the envelopes to be acknowledged, as many as there
/// are, and so an acknowledgement exactly where there is one.
pub proof fn lemma_batch_acknowledged(ids: Seq<u64>, acks: Seq<bool>, lists: Seq<Seq<u64>>)
    requires
        acks.len() == ids.len(),
        lists.len() == ids.len() + 1,
        lists[0] == Seq::<u64>::empty(),
        forall|i: int|
            0 <= i < ids.len() ==> lists[i + 1] == noted(lists[i], #[trigger] ids[i], acks[i]),
    ensures
        lists.last() == acked_ids(ids, acks),
        forall|i: int| 0 <= i < ids.len() && acks[i] ==> lists.last().contains(#[trigger] ids[i]),
        forall|id: u64| #[trigger]
            lists.last().contains(id) ==> exists|i: int|
                0 <= i < ids.len() && acks[i] && #[trigger] ids[i] == id,
        lists.last().len() == 0 <==> forall|i: int| 0 <= i < ids.len() ==> !#[trigger] acks[i],
    decreases ids.len(),
{
    if ids.len() > 0 {
        let n = ids.len() - 1;
        let (ids1, acks1, lists1) = (ids.drop_last(), acks.drop_last(), lists.drop_last());
        assert forall|i: int| 0 <= i < ids1.len() implies lists1[i + 1] == noted(
            lists1[i],
            #[trigger] ids1[i],
            acks1[i],
        ) by {
            assert(ids1[i] == ids[i]);
        }
        lemma_batch_acknowledged(ids1, acks1, lists1);
        let (before, after) = (lists[n], lists[n + 1]);
        assert(lists1.last() == before);
        assert(after == noted(before, ids[n], acks[n]));
        assert forall|i: int| 0 <= i < ids.len() && acks[i] implies after.contains(
            #[trigger] ids[i],
        ) by {
            if i < n {
                assert(acks1[i]);
                assert(before.contains(ids1[i]));
                let k = choose|k: int| 0 <= k < before.len() && before[k] == ids1[i];
                assert(after[k] == ids[i]);
            } else {
                assert(after[after.len() - 1] == ids[i]);
            }
        }
        assert forall|id: u64| #[trigger] after.contains(id) implies exists|i: int|
            0 <= i < ids.len() && acks[i] && #[trigger] ids[i] == id by {
            let k = choose|k: int| 0 <= k < after.len() && after[k] == id;
            if k < before.len() {
                assert(before[k] == id);
                assert(before.contains(id));
                let i = choose|i: int| 0 <= i < ids1.len() && acks1[i] && #[trigger] ids1[i] == id;
                assert(ids[i] == id && acks[i]);
            } else {
                assert(ids[n] == id && acks[n]);
            }
        }
        if after.len() == 0 {
            assert forall|i: int| 0 <= i < ids.len() implies !#[trigger] acks[i] by {
                if i < n {
                    assert(!acks1[i]);
                }
            }
        } else if before.len() == 0 {
            assert(acks[n]);
        } else {
            let i = choose|i: int| 0 <= i < ids1.len() && acks1[i];
            assert(acks[i]);
        }
    }
}

/// Noting an envelope adds its id behind those noted before, or leaves them as
/// they are.
pub proof fn lemma_noted(ids: Seq<u64>, id: u64)
    ensures
        noted(ids, id, false) == ids,
        noted(ids, id, true).len() == ids.len() + 1,
        noted(ids, id, true).last() == id,
        noted(ids, id, true).drop_last() == ids,
{
    assert(noted(ids, id, true).drop_last() =~= ids);
}

/// While a frame is not whole, nothing comes out and nothing is lost.
pub proof fn lemma_partial_frame_waits(
    payload: Seq<u8>,
    keep: int,
    after: Seq<u8>,
    r: Result<Option<Vec<u8>>, ClientError>,
)
    requires
        payload.len() <= framing::MAX_FRAME_SIZE,
        0 <= keep < framing::frame_of(payload).len(),
        frame_taken(framing::frame_of(payload).take(keep), after, r),
    ensures
        r matches Ok(None),
        after == framing::frame_of(payload).take(keep),
{
    framing::lemma_truncated_frame(payload, keep);
}

/// A frame that says to be larger than a frame may be is an error, whatever of it
/// came in.
pub proof fn lemma_large_frame_refused(
    before: Seq<u8>,
    after: Seq<u8>,
    r: Result<Option<Vec<u8>>, ClientError>,
)
    requires
        frame_taken(before, after, r),
        before.len() >= 4,
        before[0] >= 2,
    ensures
        r matches Err(ClientError::Protocol(e)) && e is FrameTooLarge,
        after == before,
{
    framing::lemma_decoded(before);
}

} // verus!
