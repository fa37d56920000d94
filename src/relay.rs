use vstd::prelude::*;

verus! {

/// The datagram that carries `payload` to the browser: the channel id, then the payload verbatim.
pub open spec fn framed(channel_id: u8, payload: Seq<u8>) -> Seq<u8> {
    seq![channel_id].add(payload)
}

/// Prefixes a received UDP payload with its one-byte channel identifier.
pub fn frame_datagram(channel_id: u8, payload: &[u8]) -> (r: Vec<u8>)
    requires
        payload@.len() < usize::MAX,
    ensures
        r@ == framed(channel_id, payload@),
        r@.len() == payload@.len() + 1,
        r@[0] == channel_id,
        r@.subrange(1, r@.len() as int) == payload@,
{
    let mut out: Vec<u8> = Vec::with_capacity(payload.len() + 1);
    out.push(channel_id);
    let mut i: usize = 0;
    while i < payload.len()
        invariant
            i <= payload@.len(),
            out@ == seq![channel_id].add(payload@.subrange(0, i as int)),
        decreases payload@.len() - i,
    {
        out.push(payload[i]);
        i += 1;
        proof {
            assert(payload@.subrange(0, i as int) == payload@.subrange(0, i - 1).push(payload@[i - 1]));
        }
    }
    proof {
        assert(payload@.subrange(0, payload@.len() as int) == payload@);
    }
    out
}

/// What a relay does after one wake-up.
pub enum RelayStep {
    /// Emit this datagram and wait for the next packet.
    Send(Vec<u8>),
    /// The session was cancelled: stop without error.
    Finish,
    /// Receiving failed: stop with an error.
    Fail,
}

/// Decides one wake-up of a relay. `received` is the packet that arrived, or
/// `None` when receiving failed. Once the session is cancelled nothing more
/// is emitted, whatever arrived.
pub fn relay_step(cancelled: bool, channel_id: u8, received: Option<&[u8]>) -> (r: RelayStep)
    requires
        !cancelled && received is Some ==> received->0@.len() < usize::MAX,
    ensures
        cancelled ==> r is Finish,
        !cancelled ==> match received {
            Some(p) => r is Send && r->Send_0@ == framed(channel_id, p@),
            None => r is Fail,
        },
{
    if cancelled {
        return RelayStep::Finish;
    }
    match received {
        Some(p) => RelayStep::Send(frame_datagram(channel_id, p)),
        None => RelayStep::Fail,
    }
}

} // verus!
