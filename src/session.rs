use vstd::prelude::*;

use crate::rtsp::{
    find_header, lookup, push_decimal, replace_first, set_header, RequestModel,
    ResponseModel, RtspRequest, RtspResponse,
};
use crate::text::{append_bytes, bytes_equal, copy_range, dec_digits, find_byte, find_byte_exec};
use vstd::utf8::encode_utf8;

verus! {

/// The channel identifiers reserved by one SETUP, waiting for its response.
#[derive(Clone, Copy, Debug, PartialEq, Eq, Structural)]
pub struct PendingSetup {
    pub rtp_channel_id: u8,
    pub rtcp_channel_id: u8,
}

/// A fatal condition of a proxied session.
#[derive(Clone, Copy, Debug, PartialEq, Eq, Structural)]
pub enum SessionError {
    /// Another SETUP would need a channel identifier above 255.
    ChannelsExhausted,
    /// The origin answered a SETUP that was never sent.
    UnexpectedSetupResponse,
    /// The origin named a session other than the one it opened.
    SessionMismatch,
}

/// The control state of one proxied session: the channel allocator, the
/// SETUPs that await their response in the order they were sent, and the
/// session id of the origin once one was seen.
pub struct Session {
    next_channel_id: u16,
    pending: std::collections::VecDeque<PendingSetup>,
    session_id: Option<Vec<u8>>,
    /// The pairs handed to SETUPs so far, in order.
    given: Ghost<Seq<(u8, u8)>>,
    /// The pairs handed to the answers of SETUPs so far, in order.
    answered: Ghost<Seq<(u8, u8)>>,
}

/// The abstract state of a session.
pub struct SessionModel {
    pub next: nat,
    pub pending: Seq<(u8, u8)>,
    pub session_id: Option<Seq<u8>>,
    pub given: Seq<(u8, u8)>,
    pub answered: Seq<(u8, u8)>,
}

pub open spec fn setup_method() -> Seq<u8> {
    seq![83u8, 69u8, 84u8, 85u8, 80u8]
}

pub open spec fn transport_name() -> Seq<u8> {
    seq![84u8, 114u8, 97u8, 110u8, 115u8, 112u8, 111u8, 114u8, 116u8]
}

pub open spec fn session_name() -> Seq<u8> {
    seq![83u8, 101u8, 115u8, 115u8, 105u8, 111u8, 110u8]
}

pub open spec fn client_port_prefix() -> Seq<u8> {
    seq![
        82u8, 84u8, 80u8, 47u8, 65u8, 86u8, 80u8, 59u8, 117u8, 110u8, 105u8, 99u8, 97u8, 115u8,
        116u8, 59u8, 99u8, 108u8, 105u8, 101u8, 110u8, 116u8, 95u8, 112u8, 111u8, 114u8, 116u8, 61u8,
    ]
}

pub open spec fn channel_id_prefix() -> Seq<u8> {
    seq![59u8, 120u8, 45u8, 119u8, 116u8, 45u8, 99u8, 104u8, 97u8, 110u8, 110u8, 101u8, 108u8, 45u8, 105u8, 100u8, 61u8]
}

/// `a-b` in decimal.
pub open spec fn dec_pair(a: nat, b: nat) -> Seq<u8> {
    dec_digits(a).push(45u8).add(dec_digits(b))
}

/// The Transport value sent to the origin: `RTP/AVP;unicast;client_port=<rtp>-<rtcp>`.
pub open spec fn client_transport(rtp_port: u16, rtcp_port: u16) -> Seq<u8> {
    client_port_prefix().add(dec_pair(rtp_port as nat, rtcp_port as nat))
}

/// The origin's Transport value with `;x-wt-channel-id=<rtp>-<rtcp>` appended.
pub open spec fn with_channel_ids(t: Seq<u8>, p: (u8, u8)) -> Seq<u8> {
    t.add(channel_id_prefix()).add(dec_pair(p.0 as nat, p.1 as nat))
}

/// A Session value up to its first `;`.
pub open spec fn strip_params(v: Seq<u8>) -> Seq<u8> {
    v.subrange(0, find_byte(v, 59u8, 0))
}

/// `TEARDOWN <url> RTSP/1.0\r\nCSeq: 99\r\nSession: <sid>\r\n\r\n`.
pub open spec fn teardown_bytes(url: Seq<u8>, sid: Seq<u8>) -> Seq<u8> {
    seq![84u8, 69u8, 65u8, 82u8, 68u8, 79u8, 87u8, 78u8, 32u8].add(url).add(
        seq![
            32u8, 82u8, 84u8, 83u8, 80u8, 47u8, 49u8, 46u8, 48u8, 13u8, 10u8, 67u8, 83u8, 101u8,
            113u8, 58u8, 32u8, 57u8, 57u8, 13u8, 10u8, 83u8, 101u8, 115u8, 115u8, 105u8, 111u8,
            110u8, 58u8, 32u8,
        ],
    ).add(sid).add(seq![13u8, 10u8, 13u8, 10u8])
}

pub open spec fn initial_model() -> SessionModel {
    SessionModel { next: 0, pending: seq![], session_id: None, given: seq![], answered: seq![] }
}

/// Whether one more SETUP can be given two channel identifiers.
pub open spec fn can_allocate(m: SessionModel) -> bool {
    m.next + 1 <= 255
}

/// The pair that the next SETUP receives.
pub open spec fn next_pair(m: SessionModel) -> (u8, u8) {
    (m.next as u8, (m.next + 1) as u8)
}

/// A SETUP reserves `(n, n + 1)` and advances the allocator by 2.
pub open spec fn setup_step(m: SessionModel) -> SessionModel {
    SessionModel {
        next: m.next + 2,
        pending: m.pending.push(next_pair(m)),
        given: m.given.push(next_pair(m)),
        ..m
    }
}

/// A response to a SETUP takes the oldest waiting pair.
pub open spec fn match_step(m: SessionModel) -> SessionModel {
    SessionModel {
        pending: m.pending.drop_first(),
        answered: m.answered.push(m.pending[0]),
        ..m
    }
}

/// The first Session value of a response, up to its first `;`, is kept,
/// even when that leaves it empty.
pub open spec fn capture_step(m: SessionModel, headers: Seq<(Seq<u8>, Seq<u8>)>) -> SessionModel {
    match lookup(headers, session_name()) {
        Some(v) => if m.session_id is None {
            SessionModel { session_id: Some(strip_params(v)), ..m }
        } else {
            m
        },
        None => m,
    }
}

/// A response names a session other than the one kept.
pub open spec fn session_conflict(m: SessionModel, headers: Seq<(Seq<u8>, Seq<u8>)>) -> bool {
    match lookup(headers, session_name()) {
        Some(v) => match m.session_id {
            Some(sid) => strip_params(v) != sid,
            None => false,
        },
        None => false,
    }
}

/// A response answers a SETUP when its status is 200 and it carries a Transport header.
pub open spec fn answers_setup(r: ResponseModel) -> bool {
    r.status_code == 200 && lookup(r.headers, transport_name()) is Some
}

impl Session {
    pub closed spec fn model(&self) -> SessionModel {
        SessionModel {
            next: self.next_channel_id as nat,
            pending: self.pending@.map_values(|p: PendingSetup| (p.rtp_channel_id, p.rtcp_channel_id)),
            session_id: match self.session_id {
                Some(v) => Some(v@),
                None => None,
            },
            given: self.given@,
            answered: self.answered@,
        }
    }

    /// The i-th SETUP received `(2i, 2i + 1)` and the allocator stands
    /// right after the last pair given; the answers took the first pairs
    /// given, in order, and the rest wait in order.
    pub open spec fn wf(&self) -> bool {
        let m = self.model();
        &&& m.next == 2 * m.given.len()
        &&& m.given.len() <= 128
        &&& m.answered.len() <= m.given.len()
        &&& forall|i: int|
            0 <= i < m.given.len() ==> #[trigger] m.given[i] == ((2 * i) as u8, (2 * i + 1) as u8)
        &&& m.answered == m.given.subrange(0, m.answered.len() as int)
        &&& m.pending == m.given.subrange(m.answered.len() as int, m.given.len() as int)
    }

    /// A session with no SETUP seen yet.
    pub fn new() -> (r: Session)
        ensures
            r.wf(),
            r.model() == initial_model(),
    {
        let r = Session {
            next_channel_id: 0,
            pending: std::collections::VecDeque::new(),
            session_id: None,
            given: Ghost(Seq::empty()),
            answered: Ghost(Seq::empty()),
        };
        assert(r.model().pending =~= seq![]);
        assert(r.model().given.subrange(0, 0) =~= Seq::<(u8, u8)>::empty());
        r
    }

    /// Number of SETUPs that await their response.
    pub fn pending_len(&self) -> (r: usize)
        ensures
            r == self.model().pending.len(),
    {
        self.pending.len()
    }

    /// The session id kept so far.
    pub fn session_id(&self) -> (r: Option<Vec<u8>>)
        ensures
            match r {
                Some(v) => self.model().session_id == Some(v@),
                None => self.model().session_id is None,
            },
    {
        match &self.session_id {
            Some(v) => Some(v.clone()),
            None => None,
        }
    }

    /// Handles a SETUP on its way to the origin, once two local ports are bound:
    /// its Transport header becomes `RTP/AVP;unicast;client_port=<rtp>-<rtcp>`,
    /// and the next two channel identifiers are reserved for its response.
    pub fn intercept_setup(&mut self, req: &mut RtspRequest, rtp_port: u16, rtcp_port: u16) -> (r:
        Result<PendingSetup, SessionError>)
        requires
            old(self).wf(),
        ensures
            final(self).wf(),
            can_allocate(old(self).model()) ==> {
                &&& r == Ok::<PendingSetup, SessionError>(
                    PendingSetup {
                        rtp_channel_id: next_pair(old(self).model()).0,
                        rtcp_channel_id: next_pair(old(self).model()).1,
                    },
                )
                &&& final(self).model() == setup_step(old(self).model())
                &&& final(req).model() == (RequestModel {
                    headers: replace_first(
                        old(req).model().headers,
                        transport_name(),
                        client_transport(rtp_port, rtcp_port),
                    ),
                    ..old(req).model()
                })
            },
            !can_allocate(old(self).model()) ==> {
                &&& r == Err::<PendingSetup, SessionError>(SessionError::ChannelsExhausted)
                &&& final(self).model() == old(self).model()
                &&& final(req).model() == old(req).model()
            },
    {
        if self.next_channel_id > 254 {
            return Err(SessionError::ChannelsExhausted);
        }
        let mut value: Vec<u8> = vec![
            82u8, 84u8, 80u8, 47u8, 65u8, 86u8, 80u8, 59u8, 117u8, 110u8, 105u8, 99u8, 97u8, 115u8,
            116u8, 59u8, 99u8, 108u8, 105u8, 101u8, 110u8, 116u8, 95u8, 112u8, 111u8, 114u8, 116u8, 61u8,
        ];
        assert(value@ =~= client_port_prefix());
        push_pair(&mut value, rtp_port as u64, rtcp_port as u64);
        assert(value@ =~= client_transport(rtp_port, rtcp_port));
        let name = transport_key();
        set_header(&mut req.headers, name.as_slice(), value);
        let p = PendingSetup {
            rtp_channel_id: self.next_channel_id as u8,
            rtcp_channel_id: (self.next_channel_id + 1) as u8,
        };
        let ghost m0 = self.model();
        self.pending.push_back(p);
        self.next_channel_id = self.next_channel_id + 2;
        proof {
            self.given@ = self.given@.push(next_pair(m0));
            let m = self.model();
            assert(m.pending =~= m0.pending.push(next_pair(m0)));
            assert(m == setup_step(m0));
            assert forall|i: int| 0 <= i < m.given.len() implies #[trigger] m.given[i] == (
                (2 * i) as u8,
                (2 * i + 1) as u8,
            ) by {
                if i < m0.given.len() {
                    assert(m.given[i] == m0.given[i]);
                }
            }
            assert(m.answered =~= m.given.subrange(0, m.answered.len() as int));
            assert(m.pending =~= m.given.subrange(m.answered.len() as int, m.given.len() as int));
        }
        Ok(p)
    }

    /// Handles a response on its way to the browser. The first Session
    /// value (up to its first `;`) is kept; a later one that differs is a
    /// protocol violation of the origin. A 200 response with a Transport
    /// header takes the oldest waiting SETUP: its channel identifiers are
    /// appended to that header as `;x-wt-channel-id=<rtp>-<rtcp>` and
    /// returned, so that their relays can start.
    pub fn on_response(&mut self, resp: &mut RtspResponse) -> (r: Result<
        Option<PendingSetup>,
        SessionError,
    >)
        requires
            old(self).wf(),
        ensures
            final(self).wf(),
            ({
                let m0 = capture_step(old(self).model(), old(resp).model().headers);
                let t = lookup(old(resp).model().headers, transport_name());
                if session_conflict(old(self).model(), old(resp).model().headers) {
                    &&& r == Err::<Option<PendingSetup>, SessionError>(SessionError::SessionMismatch)
                    &&& final(self).model() == old(self).model()
                    &&& final(resp).model() == old(resp).model()
                } else if !answers_setup(old(resp).model()) {
                    &&& r == Ok::<Option<PendingSetup>, SessionError>(None)
                    &&& final(self).model() == m0
                    &&& final(resp).model() == old(resp).model()
                } else if m0.pending.len() == 0 {
                    r == Err::<Option<PendingSetup>, SessionError>(SessionError::UnexpectedSetupResponse)
                } else {
                    &&& r == Ok::<Option<PendingSetup>, SessionError>(
                        Some(
                            PendingSetup {
                                rtp_channel_id: m0.pending[0].0,
                                rtcp_channel_id: m0.pending[0].1,
                            },
                        ),
                    )
                    &&& final(self).model() == match_step(m0)
                    &&& final(resp).model() == (ResponseModel {
                        headers: replace_first(
                            old(resp).model().headers,
                            transport_name(),
                            with_channel_ids(t.unwrap(), m0.pending[0]),
                        ),
                        ..old(resp).model()
                    })
                }
            }),
    {
        let sname = session_key();
        match find_header(&resp.headers, sname.as_slice()) {
            Some(i) => {
                let v = &resp.headers[i].value;
                let cut = find_byte_exec(v.as_slice(), 59u8, 0);
                let sid = copy_range(v.as_slice(), 0, cut);
                match &self.session_id {
                    Some(kept) => {
                        if !bytes_equal(kept.as_slice(), sid.as_slice()) {
                            return Err(SessionError::SessionMismatch);
                        }
                    },
                    None => {
                        self.session_id = Some(sid);
                    },
                }
            },
            None => {},
        }
        let ghost m0 = self.model();
        assert(m0 == capture_step(old(self).model(), old(resp).model().headers));
        if resp.status_code != 200 {
            return Ok(None);
        }
        let tname = transport_key();
        let ti = match find_header(&resp.headers, tname.as_slice()) {
            Some(ti) => ti,
            None => return Ok(None),
        };
        let setup = match self.pending.pop_front() {
            Some(p) => p,
            None => return Err(SessionError::UnexpectedSetupResponse),
        };
        proof {
            assert(m0.pending[0] == (setup.rtp_channel_id, setup.rtcp_channel_id));
            self.answered@ = self.answered@.push(m0.pending[0]);
            let m = self.model();
            assert(m.pending =~= m0.pending.drop_first());
            assert(m == match_step(m0));
            assert(m0.pending[0] == m0.given[m0.answered.len() as int]);
            assert(m.answered =~= m.given.subrange(0, m.answered.len() as int));
            assert(m.pending =~= m.given.subrange(m.answered.len() as int, m.given.len() as int));
        }
        let mut value = resp.headers[ti].value.clone();
        let suffix = channel_id_key();
        append_bytes(&mut value, suffix.as_slice());
        push_pair(&mut value, setup.rtp_channel_id as u64, setup.rtcp_channel_id as u64);
        assert(value@ =~= with_channel_ids(lookup(old(resp).model().headers, transport_name()).unwrap(), m0.pending[0]));
        set_header(&mut resp.headers, tname.as_slice(), value);
        Ok(Some(setup))
    }
}

/// Appends `a-b` in decimal.
fn push_pair(out: &mut Vec<u8>, a: u64, b: u64)
    ensures
        final(out)@ == old(out)@.add(dec_pair(a as nat, b as nat)),
{
    push_decimal(out, a);
    out.push(45u8);
    push_decimal(out, b);
    assert(final(out)@ =~= old(out)@.add(dec_pair(a as nat, b as nat)));
}

fn transport_key() -> (r: Vec<u8>)
    ensures
        r@ == transport_name(),
{
    let r = vec![84u8, 114u8, 97u8, 110u8, 115u8, 112u8, 111u8, 114u8, 116u8];
    assert(r@ =~= transport_name());
    r
}

fn session_key() -> (r: Vec<u8>)
    ensures
        r@ == session_name(),
{
    let r = vec![83u8, 101u8, 115u8, 115u8, 105u8, 111u8, 110u8];
    assert(r@ =~= session_name());
    r
}

fn channel_id_key() -> (r: Vec<u8>)
    ensures
        r@ == channel_id_prefix(),
{
    let r = vec![59u8, 120u8, 45u8, 119u8, 116u8, 45u8, 99u8, 104u8, 97u8, 110u8, 110u8, 101u8, 108u8, 45u8, 105u8, 100u8, 61u8];
    assert(r@ =~= channel_id_prefix());
    r
}

/// Whether a request is a SETUP, whose Transport the proxy rewrites.
pub fn is_setup(req: &RtspRequest) -> (r: bool)
    ensures
        r == (req.method@ == setup_method()),
{
    let m = &req.method;
    let r = m.len() == 5 && m[0] == 83u8 && m[1] == 69u8 && m[2] == 84u8 && m[3] == 85u8 && m[4]
        == 80u8;
    assert(r == (m@ =~= setup_method()));
    r
}

} // verus!

verus! {

/// Channel identifiers are handed out two at a time, in increasing order
/// from 0: in every state that `Session::new`, `Session::intercept_setup`
/// and `Session::on_response` produce, the i-th SETUP received `2i` for RTP
/// and `2i + 1` for RTCP, and the allocator stands right after the last pair.
pub proof fn lemma_channel_ids_ascend(s: &Session)
    requires
        s.wf(),
    ensures
        forall|i: int|
            0 <= i < s.model().given.len() ==> #[trigger] s.model().given[i] == (
                (2 * i) as u8,
                (2 * i + 1) as u8,
            ),
        s.model().next == 2 * s.model().given.len(),
{
}

/// SETUPs and their answers pair up first-in first-out: whatever other
/// messages come between them, the i-th answer handed out by
/// `Session::on_response` carries the channel identifiers that
/// `Session::intercept_setup` gave the i-th SETUP.
pub proof fn lemma_answers_follow_setup_order(s: &Session)
    requires
        s.wf(),
    ensures
        s.model().answered.len() <= s.model().given.len(),
        forall|i: int|
            0 <= i < s.model().answered.len() ==> #[trigger] s.model().answered[i] == s.model().given[i],
{
    let m = s.model();
    assert forall|i: int| 0 <= i < m.answered.len() implies #[trigger] m.answered[i] == m.given[i] by {
        assert(m.answered[i] == m.given.subrange(0, m.answered.len() as int)[i]);
    }
}

/// The proxy for one browser session: the origin's RTSP URL.
pub struct RTSPProxy {
    rtsp_url: String,
}

impl RTSPProxy {
    pub closed spec fn url(&self) -> Seq<char> {
        self.rtsp_url@
    }

    pub fn new(rtsp_url: String) -> (r: RTSPProxy)
        ensures
            r.url() == rtsp_url@,
    {
        RTSPProxy { rtsp_url }
    }

    /// The origin's RTSP URL.
    pub fn rtsp_url(&self) -> (r: &str)
        ensures
            r@ == self.url(),
    {
        self.rtsp_url.as_str()
    }

    /// The TEARDOWN to send when the session ends: there is one exactly when
    /// a non-empty session id was kept.
    pub fn teardown_request(&self, session: &Session) -> (r: Option<Vec<u8>>)
        requires
            session.wf(),
        ensures
            match session.model().session_id {
                Some(sid) => if sid.len() > 0 {
                    r is Some && r->0@ == teardown_bytes(encode_utf8(self.url()), sid)
                } else {
                    r is None
                },
                None => r is None,
            },
    {
        match session.session_id() {
            None => None,
            Some(sid) => {
                if sid.len() == 0 {
                    return None;
                }
                let mut out: Vec<u8> = vec![84u8, 69u8, 65u8, 82u8, 68u8, 79u8, 87u8, 78u8, 32u8];
                append_bytes(&mut out, self.rtsp_url.as_str().as_bytes());
                let mid: Vec<u8> = vec![
                    32u8, 82u8, 84u8, 83u8, 80u8, 47u8, 49u8, 46u8, 48u8, 13u8, 10u8, 67u8, 83u8,
                    101u8, 113u8, 58u8, 32u8, 57u8, 57u8, 13u8, 10u8, 83u8, 101u8, 115u8, 115u8,
                    105u8, 111u8, 110u8, 58u8, 32u8,
                ];
                append_bytes(&mut out, mid.as_slice());
                append_bytes(&mut out, sid.as_slice());
                out.push(13u8);
                out.push(10u8);
                out.push(13u8);
                out.push(10u8);
                assert(out@ =~= teardown_bytes(encode_utf8(self.url()), sid@));
                Some(out)
            },
        }
    }
}

} // verus!
