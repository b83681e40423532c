//! The decisions of a federation node: the integrity-checked fetcher, the
//! intake of a `POST /notify`, the gossip fan-out, and the headers of a blob.
//! Each step takes what the network or the disk gave as an argument and says
//! what to do next; the caller performs the I/O.
use vstd::prelude::*;
use vstd::string::*;
use crate::cid::{cid_text, parse_text_spec, sha256, Cid};
use crate::magnet::{candidates, urls_view, MagnetLink};
use crate::peers::{status_of, trusted, urls_of, PeerRegistry};
use crate::random::random_up_to;
use crate::url::{url_join, url_origin, url_parse, Url};

verus! {

/// How many peers a job is gossiped to at most.
pub const GOSSIP_FANOUT: usize = 12;

/// The largest random delay before a fan-out, in milliseconds.
pub const MAX_JITTER_MS: u64 = 500;

/// Whether a response body is the blob named by `cid`.
pub open spec fn verifies(cid: Seq<u8>, body: Option<Seq<u8>>) -> bool {
    body is Some && sha256(body->Some_0) == cid
}

/// The first response that is the blob named by `cid`, if any.
pub open spec fn first_verified(cid: Seq<u8>, rs: Seq<Option<Seq<u8>>>) -> Option<Seq<u8>>
    decreases rs.len(),
{
    if rs.len() == 0 {
        None
    } else if verifies(cid, rs[0]) {
        rs[0]
    } else {
        first_verified(cid, rs.drop_first())
    }
}

pub open spec fn body_view(b: Option<Vec<u8>>) -> Option<Seq<u8>> {
    match b {
        Some(v) => Some(v@),
        None => None,
    }
}

proof fn lemma_first_verified_push(cid: Seq<u8>, rs: Seq<Option<Seq<u8>>>, b: Option<Seq<u8>>)
    requires
        first_verified(cid, rs) is None,
    ensures
        first_verified(cid, rs.push(b)) == if verifies(cid, b) {
            b
        } else {
            None
        },
    decreases rs.len(),
{
    let e: Seq<Option<Seq<u8>>> = Seq::empty();
    let p = rs.push(b);
    if rs.len() == 0 {
        assert(p.drop_first() =~= e);
        assert(p[0] == b);
        assert(first_verified(cid, e) is None);
        assert(first_verified(cid, p) == if verifies(cid, p[0]) {
            p[0]
        } else {
            first_verified(cid, p.drop_first())
        });
    } else {
        assert(p.drop_first() =~= rs.drop_first().push(b));
        assert(p[0] == rs[0]);
        assert(!verifies(cid, rs[0]));
        assert(first_verified(cid, rs) == first_verified(cid, rs.drop_first()));
        lemma_first_verified_push(cid, rs.drop_first(), b);
        assert(first_verified(cid, p) == first_verified(cid, p.drop_first()));
    }
}

/// The fetcher never accepts a body whose CID differs from the one asked for;
/// it finds a body exactly when one of the responses is the blob, and then
/// the first such, having passed over only mismatches and failures.
pub proof fn lemma_fetch_integrity(cid: Seq<u8>, rs: Seq<Option<Seq<u8>>>)
    ensures
        first_verified(cid, rs) is Some ==> sha256(first_verified(cid, rs)->Some_0) == cid,
        first_verified(cid, rs) is Some <==> exists|i: int| 0 <= i < rs.len() && verifies(cid, #[trigger] rs[i]),
        first_verified(cid, rs) is Some ==> exists|i: int|
            0 <= i < rs.len() && rs[i] == first_verified(cid, rs) && forall|j: int|
                0 <= j < i ==> !verifies(cid, #[trigger] rs[j]),
    decreases rs.len(),
{
    if rs.len() > 0 {
        lemma_fetch_integrity(cid, rs.drop_first());
        if verifies(cid, rs[0]) {
            assert(rs[0] == first_verified(cid, rs));
        } else {
            if exists|i: int| 0 <= i < rs.len() && verifies(cid, #[trigger] rs[i]) {
                let i = choose|i: int| 0 <= i < rs.len() && verifies(cid, #[trigger] rs[i]);
                assert(rs.drop_first()[i - 1] == rs[i]);
            }
            if exists|i: int| 0 <= i < rs.drop_first().len() && verifies(cid, #[trigger] rs.drop_first()[i]) {
                let i = choose|i: int| 0 <= i < rs.drop_first().len() && verifies(cid, #[trigger] rs.drop_first()[i]);
                assert(rs[i + 1] == rs.drop_first()[i]);
            }
            if first_verified(cid, rs) is Some {
                let i = choose|i: int|
                    0 <= i < rs.drop_first().len() && rs.drop_first()[i] == first_verified(cid, rs)
                        && forall|j: int| 0 <= j < i ==> !verifies(cid, #[trigger] rs.drop_first()[j]);
                assert(rs[i + 1] == rs.drop_first()[i]);
                assert forall|j: int| 0 <= j < i + 1 implies !verifies(cid, #[trigger] rs[j]) by {
                    if j > 0 {
                        assert(rs[j] == rs.drop_first()[j - 1]);
                    }
                }
            }
        }
    }
}

/// A fetch in progress: the candidates of a link, tried in order, each once.
pub struct Fetch {
    cid: Cid,
    candidates: Vec<Url>,
    next: usize,
    responses: Ghost<Seq<Option<Seq<u8>>>>,
}

impl Fetch {
    pub closed spec fn cid(&self) -> Seq<u8> {
        self.cid.0@
    }

    pub closed spec fn candidates(&self) -> Seq<Seq<char>> {
        urls_view(self.candidates@)
    }

    /// How many candidates have been tried.
    pub closed spec fn tried(&self) -> nat {
        self.next as nat
    }

    /// The responses so far, one per tried candidate; `None` for a failed request.
    pub closed spec fn responses(&self) -> Seq<Option<Seq<u8>>> {
        self.responses@
    }

    pub open spec fn wf(&self) -> bool {
        &&& self.tried() <= self.candidates().len()
        &&& self.responses().len() == self.tried()
    }

    /// A fetch of the blob of a magnet link from its candidate URLs.
    pub fn new(magnet: &MagnetLink) -> (r: Fetch)
        ensures
            r.wf(),
            r.cid() == magnet.cid.0@,
            r.candidates() == candidates(magnet.view()),
            r.tried() == 0,
    {
        Fetch { cid: magnet.cid, candidates: magnet.urls(), next: 0, responses: Ghost(Seq::empty()) }
    }

    /// A fetch of the blob named by `cid` from one URL.
    pub fn direct(cid: Cid, url: &Url) -> (r: Fetch)
        ensures
            r.wf(),
            r.cid() == cid.0@,
            r.candidates() == seq![url@],
            r.tried() == 0,
    {
        let mut v: Vec<Url> = Vec::new();
        v.push(url.duplicate());
        let r = Fetch { cid, candidates: v, next: 0, responses: Ghost(Seq::empty()) };
        assert(r.candidates() =~= seq![url@]);
        r
    }

    /// The next URL to GET, or `None` when every candidate has been tried.
    pub fn next_url(&self) -> (r: Option<Url>)
        requires
            self.wf(),
        ensures
            r is Some <==> self.tried() < self.candidates().len(),
            r is Some ==> r->Some_0@ == self.candidates()[self.tried() as int],
    {
        if self.next < self.candidates.len() {
            Some(self.candidates[self.next].duplicate())
        } else {
            None
        }
    }

    /// Takes the outcome of the GET of the next candidate: the body of a 2xx
    /// response, or `None` for any failure. Returns the body when its CID is
    /// the one asked for; otherwise the fetch moves on.
    pub fn on_response(&mut self, body: Option<Vec<u8>>) -> (r: Option<Vec<u8>>)
        requires
            old(self).wf(),
            old(self).tried() < old(self).candidates().len(),
            first_verified(old(self).cid(), old(self).responses()) is None,
        ensures
            final(self).wf(),
            final(self).cid() == old(self).cid(),
            final(self).candidates() == old(self).candidates(),
            final(self).tried() == old(self).tried() + 1,
            final(self).responses() == old(self).responses().push(body_view(body)),
            body_view(r) == first_verified(final(self).cid(), final(self).responses()),
            body_view(r) == if verifies(old(self).cid(), body_view(body)) {
                body_view(body)
            } else {
                None
            },
    {
        proof {
            lemma_first_verified_push(self.cid.0@, self.responses@, body_view(body));
        }
        assert(self.candidates().len() == self.candidates@.len());
        let n = self.candidates.len();
        assert(self.next < n);
        self.next = self.next + 1;
        self.responses = Ghost(self.responses@.push(body_view(body)));
        match body {
            None => None,
            Some(b) => {
                let got = Cid::of(b.as_slice());
                if got.same_as(&self.cid) {
                    Some(b)
                } else {
                    None
                }
            },
        }
    }
}

/// An HTTP reply: a status code and a text body.
pub struct Reply {
    pub status: u16,
    pub body: String,
}

/// A gossip job: a CID this node now holds and the URL at which it serves it.
pub struct NotifyJob {
    pub cid: Cid,
    pub self_url: Url,
}

/// What a `POST /notify` handler does next.
pub enum IntakeStep {
    /// Answer and stop.
    Reply(Reply),
    /// GET this URL and hand the body, or `None` on failure, to `on_fetched`.
    Fetch(Url),
    /// Write these bytes as the blob and hand the outcome to `on_stored`.
    Store(Vec<u8>),
    /// Answer 201 and, if there is one, queue the job without waiting.
    Created(Reply, Option<NotifyJob>),
}

#[derive(Debug, Clone, Copy, PartialEq, Eq, Structural)]
pub enum IntakeStage {
    Exists,
    Fetching,
    Storing,
    Done,
}

/// The intake of one notification: a `ws` URL and the CID expected there.
pub struct NotifyIntake {
    pub cid: Cid,
    pub ws: Url,
    pub stage: IntakeStage,
}

pub open spec fn reply_is(step: IntakeStep, status: u16) -> bool {
    step is Reply && step->Reply_0.status == status
}

/// The status a notification ends with, given whether the blob was already
/// held, whether the origin is trusted, what the fetch gave, and whether the
/// write succeeded.
pub open spec fn intake_status(exists: bool, trusted: bool, body_ok: bool, stored: bool) -> u16 {
    if exists {
        200
    } else if !trusted {
        400
    } else if !body_ok {
        400
    } else if !stored {
        500
    } else {
        201
    }
}

/// Two notifications of the same CID, one after the other: if the first
/// answers 201, the blob is then held, so the second answers 200, writes
/// nothing and queues no gossip.
pub proof fn lemma_notify_idempotent(
    held: Set<Seq<u8>>,
    cid: Seq<u8>,
    trusted1: bool,
    body1: Option<Seq<u8>>,
    trusted2: bool,
    body2: Option<Seq<u8>>,
)
    requires
        intake_status(held.contains(cid), trusted1, verifies(cid, body1), true) == 201,
    ensures
        ({
            let after = held.insert(cid);
            &&& after.contains(cid)
            &&& intake_status(after.contains(cid), trusted2, verifies(cid, body2), true) == 200
        }),
{
}

impl NotifyIntake {
    /// Reads the `ws` and `cid` headers; a missing or unparsable one is a 400.
    pub fn start(ws: Option<&str>, cid: Option<&str>) -> (r: Result<NotifyIntake, Reply>)
        ensures
            r is Ok <==> (ws is Some && url_parse(ws->Some_0@) is Some && cid is Some
                && parse_text_spec(cid->Some_0@) is Ok),
            r is Ok ==> {
                &&& r->Ok_0.ws@ == url_parse(ws->Some_0@)->Some_0
                &&& r->Ok_0.cid.0@ == parse_text_spec(cid->Some_0@)->Ok_0
                &&& r->Ok_0.stage == IntakeStage::Exists
            },
            r is Err ==> r->Err_0.status == 400,
    {
        let ws_text = match ws {
            Some(t) => t,
            None => {
                return Err(Reply { status: 400, body: String::from_str("Missing ws header") });
            },
        };
        let cid_text_value = match cid {
            Some(t) => t,
            None => {
                return Err(Reply { status: 400, body: String::from_str("Missing cid header") });
            },
        };
        let url = match Url::parse(ws_text) {
            Ok(u) => u,
            Err(_) => {
                return Err(Reply { status: 400, body: String::from_str("Invalid ws header") });
            },
        };
        let parsed = match Cid::parse(cid_text_value) {
            Ok(c) => c,
            Err(_) => {
                return Err(Reply { status: 400, body: String::from_str("Invalid cid header") });
            },
        };
        Ok(NotifyIntake { cid: parsed, ws: url, stage: IntakeStage::Exists })
    }

    /// Takes whether the blob is already held. A held blob is a 200 with no
    /// fan-out; an untrusted origin is a 400; otherwise the `ws` URL is fetched.
    pub fn on_exists(&mut self, exists: bool, registry: &PeerRegistry, allow_all: bool) -> (r:
        IntakeStep)
        requires
            old(self).stage == IntakeStage::Exists,
        ensures
            final(self).cid == old(self).cid,
            final(self).ws@ == old(self).ws@,
            exists ==> reply_is(r, 200) && final(self).stage == IntakeStage::Done,
            !exists && !trusted(status_of(registry.policy(), url_origin(old(self).ws@)), allow_all)
                ==> reply_is(r, 400) && final(self).stage == IntakeStage::Done,
            !exists && trusted(status_of(registry.policy(), url_origin(old(self).ws@)), allow_all)
                ==> r is Fetch && r->Fetch_0@ == old(self).ws@ && final(self).stage
                == IntakeStage::Fetching,
    {
        if exists {
            self.stage = IntakeStage::Done;
            return IntakeStep::Reply(Reply { status: 200, body: String::from_str("Resource exists") });
        }
        if !registry.is_trusted(&self.ws, allow_all) {
            self.stage = IntakeStage::Done;
            return IntakeStep::Reply(Reply { status: 400, body: String::from_str("Untrusted origin") });
        }
        self.stage = IntakeStage::Fetching;
        IntakeStep::Fetch(self.ws.duplicate())
    }

    /// Takes what the GET of the `ws` URL gave. A body whose CID is the one
    /// expected is to be stored; anything else is a 400 that names the CID.
    pub fn on_fetched(&mut self, body: Option<Vec<u8>>) -> (r: IntakeStep)
        requires
            old(self).stage == IntakeStage::Fetching,
        ensures
            final(self).cid == old(self).cid,
            final(self).ws@ == old(self).ws@,
            verifies(old(self).cid.0@, body_view(body)) ==> r is Store && Some(r->Store_0@)
                == body_view(body) && final(self).stage == IntakeStage::Storing,
            !verifies(old(self).cid.0@, body_view(body)) ==> reply_is(r, 400) && final(self).stage
                == IntakeStage::Done,
    {
        let mut fetch = Fetch::direct(self.cid, &self.ws);
        match fetch.on_response(body) {
            Some(b) => {
                self.stage = IntakeStage::Storing;
                IntakeStep::Store(b)
            },
            None => {
                self.stage = IntakeStage::Done;
                let msg = String::from_str("Unable to fetch ").concat(self.cid.to_string().as_str());
                IntakeStep::Reply(Reply { status: 400, body: msg })
            },
        }
    }

    /// Takes whether the write succeeded. A failed write is a 500; otherwise
    /// the answer is 201 with the CID text, and the job names this node's
    /// public URL joined with the CID text.
    pub fn on_stored(&mut self, stored: bool, public_url: &Url) -> (r: IntakeStep)
        requires
            old(self).stage == IntakeStage::Storing,
        ensures
            final(self).stage == IntakeStage::Done,
            !stored ==> reply_is(r, 500),
            stored ==> r is Created && r->Created_0.status == 201 && r->Created_0.body@ == cid_text(
                old(self).cid.0@,
            ),
            stored ==> (r->Created_1 is Some <==> url_join(public_url@, cid_text(old(self).cid.0@))
                is Some),
            stored && r->Created_1 is Some ==> r->Created_1->Some_0.cid == old(self).cid
                && r->Created_1->Some_0.self_url@ == url_join(
                public_url@,
                cid_text(old(self).cid.0@),
            )->Some_0,
    {
        self.stage = IntakeStage::Done;
        if !stored {
            return IntakeStep::Reply(Reply { status: 500, body: String::from_str("Unable to store the blob") });
        }
        let text = self.cid.to_string();
        let job = match public_url.join(text.as_str()) {
            Ok(u) => Some(NotifyJob { cid: self.cid, self_url: u }),
            Err(_) => None,
        };
        IntakeStep::Created(Reply { status: 201, body: text }, job)
    }
}

/// One notification to send: POST `target` with headers `ws` and `cid`.
pub struct NotifyRequest {
    pub peer: Url,
    pub target: Url,
    pub ws: String,
    pub cid: String,
}

/// What the gossip worker does with a job: wait `delay_ms`, then send each request.
pub struct GossipPlan {
    pub delay_ms: u64,
    pub requests: Vec<NotifyRequest>,
}

pub open spec fn request_peers(v: Seq<NotifyRequest>) -> Seq<Seq<char>> {
    v.map_values(|q: NotifyRequest| q.peer@)
}

/// Relative path of the notification endpoint.
pub open spec fn notify_path() -> Seq<char> {
    seq!['n', 'o', 't', 'i', 'f', 'y']
}

/// The peers whose `notify` endpoint resolves, in order.
pub open spec fn joinable(peers: Seq<Seq<char>>) -> Seq<Seq<char>>
    decreases peers.len(),
{
    if peers.len() == 0 {
        seq![]
    } else {
        joinable(peers.drop_last()) + if url_join(peers.last(), notify_path()) is Some {
            seq![peers.last()]
        } else {
            seq![]
        }
    }
}

/// Plans the fan-out of a job: at most `GOSSIP_FANOUT` distinct notify peers
/// drawn at random (fewer if there are fewer), a POST to each one's `notify`
/// endpoint that names the job's URL and CID, after a random delay of at most
/// `MAX_JITTER_MS` milliseconds.
pub fn plan_gossip(registry: &PeerRegistry, job: &NotifyJob) -> (r: GossipPlan)
    requires
        registry.wf(),
    ensures
        r.delay_ms <= MAX_JITTER_MS,
        exists|sample: Seq<Seq<char>>|
            {
                &&& sample.len() == if registry.notify_peers().len() < GOSSIP_FANOUT {
                    registry.notify_peers().len()
                } else {
                    GOSSIP_FANOUT as nat
                }
                &&& sample.no_duplicates()
                &&& forall|k: int| 0 <= k < sample.len() ==> registry.notify_peers().contains(#[trigger] sample[k])
                &&& request_peers(r.requests@) == joinable(sample)
            },
        r.requests@.len() <= GOSSIP_FANOUT,
        r.requests@.len() <= registry.notify_peers().len(),
        request_peers(r.requests@).no_duplicates(),
        forall|i: int| 0 <= i < r.requests@.len() ==> {
            &&& registry.notify_peers().contains(#[trigger] r.requests@[i].peer@)
            &&& url_join(r.requests@[i].peer@, notify_path()) == Some(r.requests@[i].target@)
            &&& r.requests@[i].ws@ == job.self_url@
            &&& r.requests@[i].cid@ == cid_text(job.cid.0@)
        },
{
    let peers = registry.sample_notify(GOSSIP_FANOUT);
    let cid_string = job.cid.to_string();
    let mut requests: Vec<NotifyRequest> = Vec::new();
    let mut i: usize = 0;
    proof {
        reveal_strlit("notify");
    }
    assert("notify"@ =~= notify_path());
    while i < peers.len()
        invariant
            i <= peers@.len(),
            urls_of(peers@).no_duplicates(),
            urls_of(peers@).len() <= GOSSIP_FANOUT,
            urls_of(peers@).len() <= registry.notify_peers().len(),
            forall|k: int| 0 <= k < peers@.len() ==> registry.notify_peers().contains(#[trigger] peers@[k]@),
            cid_string@ == cid_text(job.cid.0@),
            "notify"@ == notify_path(),
            requests@.len() <= i,
            request_peers(requests@) == joinable(urls_of(peers@).subrange(0, i as int)),
            forall|a: int| 0 <= a < requests@.len() ==> exists|k: int| 0 <= k < i && #[trigger] requests@[a].peer@ == peers@[k]@,
            forall|a: int, b: int| #![trigger requests@[a], requests@[b]] 0 <= a < requests@.len() && 0 <= b < requests@.len() && a != b ==> requests@[a].peer@ != requests@[b].peer@,
            forall|a: int, k: int| #![trigger requests@[a], peers@[k]] 0 <= a < requests@.len() && i <= k < peers@.len() ==> requests@[a].peer@ != peers@[k]@,
            forall|a: int| 0 <= a < requests@.len() ==> {
                &&& registry.notify_peers().contains(#[trigger] requests@[a].peer@)
                &&& url_join(requests@[a].peer@, notify_path()) == Some(requests@[a].target@)
                &&& requests@[a].ws@ == job.self_url@
                &&& requests@[a].cid@ == cid_text(job.cid.0@)
            },
        decreases peers@.len() - i,
    {
        proof {
            assert forall|a: int, k: int| #![trigger requests@[a], peers@[k]] 0 <= a < requests@.len() && i <= k < peers@.len() implies requests@[a].peer@ != peers@[k]@ by {
                let kk = choose|kk: int| 0 <= kk < i && #[trigger] requests@[a].peer@ == peers@[kk]@;
                assert(urls_of(peers@)[kk] != urls_of(peers@)[k]);
            }
        }
        let ghost before = requests@;
        proof {
            let sub = urls_of(peers@).subrange(0, i + 1);
            assert(sub.drop_last() =~= urls_of(peers@).subrange(0, i as int));
            assert(sub.last() == peers@[i as int]@);
        }
        match peers[i].join("notify") {
            Ok(target) => {
                let ws_value = String::from_str(job.self_url.as_str());
                let cid_value = cid_string.clone();
                requests.push(NotifyRequest { peer: peers[i].duplicate(), target, ws: ws_value, cid: cid_value });
            },
            Err(_) => {},
        }
        assert(request_peers(requests@) =~= request_peers(before) + request_peers(requests@).subrange(
            before.len() as int,
            requests@.len() as int,
        ));
        proof {
            assert forall|a: int, k: int| #![trigger requests@[a], peers@[k]] 0 <= a < requests@.len() && i + 1 <= k < peers@.len() implies requests@[a].peer@ != peers@[k]@ by {
                if a == requests@.len() - 1 && requests@.len() > 0 {
                    if requests@[a].peer@ == peers@[i as int]@ {
                        assert(urls_of(peers@)[i as int] != urls_of(peers@)[k]);
                    }
                }
            }
        }
        i = i + 1;
    }
    proof {
        assert(urls_of(peers@).subrange(0, peers@.len() as int) =~= urls_of(peers@));
        assert forall|k: int| 0 <= k < urls_of(peers@).len() implies registry.notify_peers().contains(#[trigger] urls_of(peers@)[k]) by {
            assert(urls_of(peers@)[k] == peers@[k]@);
        }
        assert forall|a: int, b: int| 0 <= a < b < request_peers(requests@).len() implies request_peers(requests@)[a] != request_peers(requests@)[b] by {
            assert(request_peers(requests@)[a] == requests@[a].peer@);
            assert(request_peers(requests@)[b] == requests@[b].peer@);
        }
    }
    let delay_ms = random_up_to(MAX_JITTER_MS);
    GossipPlan { delay_ms, requests }
}

/// The `content-digest` header of a blob: `cid=:` and the CID text and `:`.
pub fn content_digest(cid: &Cid) -> (r: String)
    ensures
        r@ == seq!['c', 'i', 'd', '=', ':'] + cid_text(cid.0@) + seq![':'],
{
    proof {
        reveal_strlit("cid=:");
        reveal_strlit(":");
    }
    let r = String::from_str("cid=:").concat(cid.to_string().as_str()).concat(":");
    assert(r@ =~= seq!['c', 'i', 'd', '=', ':'] + cid_text(cid.0@) + seq![':']);
    r
}

/// The `content-disposition` header of a blob: an attachment, named by `dn` when given.
pub fn content_disposition(dn: Option<&str>) -> (r: String)
    ensures
        dn is None ==> r@ == "attachment"@,
        dn is Some ==> r@ == "attachment; filename=\""@ + dn->Some_0@ + "\""@,
{
    match dn {
        None => String::from_str("attachment"),
        Some(name) => String::from_str("attachment; filename=\"").concat(name).concat("\""),
    }
}

/// The server's settings.
pub struct ServerConfig {
    /// The address to listen on.
    pub addr: String,
    /// The directory of the blobs.
    pub dir: String,
    /// This node's public URL; gossip names blobs under it.
    pub public_url: String,
    /// Accept notifications from any origin that is not denied.
    pub allow_all: bool,
    /// Accept uploads with `POST /`.
    pub allow_post: bool,
}

} // verus!
