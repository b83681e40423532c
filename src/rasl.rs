//! RASL links: `web+rasl://<cid>;<host>,<host>,.../`, a CID and the hosts that
//! serve it under `/.well-known/rasl/`.
use vstd::prelude::*;
use vstd::string::*;
use crate::cid::{cid_text, parse_text_spec, Cid, CidErrorKind};
use crate::magnet::{urls_view, MagnetLink};
use crate::url::{url_authority, url_parse, Url, UrlError};

verus! {

/// The position of the first `c` in `s`, or the length of `s` if there is none.
pub open spec fn position_of(s: Seq<char>, c: char) -> nat
    decreases s.len(),
{
    if s.len() == 0 {
        0
    } else if s[0] == c {
        0
    } else {
        1 + position_of(s.drop_first(), c)
    }
}

proof fn lemma_position_of(s: Seq<char>, c: char)
    ensures
        position_of(s, c) <= s.len(),
        forall|j: int| 0 <= j < position_of(s, c) ==> s[j] != c,
        position_of(s, c) < s.len() ==> s[position_of(s, c) as int] == c,
    decreases s.len(),
{
    if s.len() > 0 && s[0] != c {
        lemma_position_of(s.drop_first(), c);
        assert forall|j: int| 0 <= j < position_of(s, c) implies s[j] != c by {
            if j > 0 {
                assert(s[j] == s.drop_first()[j - 1]);
            }
        }
    }
}

/// The comma-separated entries of `s` that are absolute URLs, as serializations, in order.
pub open spec fn origin_list(s: Seq<char>) -> Seq<Seq<char>>
    decreases s.len(),
{
    let i = position_of(s, ',');
    let head: Seq<Seq<char>> = match url_parse(s.subrange(0, i as int)) {
        Some(h) => seq![h],
        None => seq![],
    };
    if i < s.len() {
        head + origin_list(s.subrange(i as int + 1, s.len() as int))
    } else {
        head
    }
}

/// Why a text is not a RASL link.
#[derive(Debug, Clone, Copy, PartialEq, Eq, Structural)]
pub enum Error {
    /// The authority holds no `;` between the CID and the hosts.
    Value,
    /// The text is not an absolute URL.
    Url(UrlError),
    /// The part before the `;` is not a CID.
    Cid(CidErrorKind),
    /// A seed URL has no authority to make a RASL endpoint of.
    InvalidRaslEndpoint,
}

/// What parsing a text gives: the digest and the seeds, or why there are none.
pub open spec fn parse_rasl_spec(s: Seq<char>) -> Result<(Seq<u8>, Seq<Seq<char>>), Error> {
    match url_parse(s) {
        None => Err(Error::Url(UrlError)),
        Some(h) => {
            let a = url_authority(h);
            let i = position_of(a, ';');
            if i >= a.len() {
                Err(Error::Value)
            } else {
                match parse_text_spec(a.subrange(0, i as int)) {
                    Err(k) => Err(Error::Cid(k)),
                    Ok(d) => Ok((d, origin_list(a.subrange(i as int + 1, a.len() as int)))),
                }
            }
        },
    }
}

/// The position of the first `c` in `s[start..end]`, or `end`.
fn find_char(s: &str, start: usize, end: usize, c: char) -> (r: usize)
    requires
        start <= end <= s@.len(),
    ensures
        r == start + position_of(s@.subrange(start as int, end as int), c),
        start <= r <= end,
{
    let mut j: usize = start;
    while j < end && s.get_char(j) != c
        invariant
            start <= j <= end <= s@.len(),
            forall|k: int| start <= k < j ==> s@[k] != c,
        decreases end - j,
    {
        j = j + 1;
    }
    proof {
        let sub = s@.subrange(start as int, end as int);
        lemma_position_of(sub, c);
        let i = position_of(sub, c);
        if i < j - start {
            assert(sub[i as int] == s@[start + i]);
        }
        if i > j - start {
            assert(sub[j - start] == s@[j as int]);
        }
    }
    j
}

/// The entries of the comma-separated list `s[start..end]` that are absolute URLs.
fn parse_origins(s: &str, start: usize, end: usize) -> (r: Vec<Url>)
    requires
        start <= end <= s@.len(),
    ensures
        urls_view(r@) == origin_list(s@.subrange(start as int, end as int)),
{
    let mut out: Vec<Url> = Vec::new();
    let mut pos: usize = start;
    let mut finished = false;
    while !finished
        invariant
            start <= pos <= end <= s@.len(),
            finished ==> urls_view(out@) == origin_list(s@.subrange(start as int, end as int)),
            !finished ==> urls_view(out@) + origin_list(s@.subrange(pos as int, end as int))
                == origin_list(s@.subrange(start as int, end as int)),
        decreases end - pos + if finished {
            0int
        } else {
            1int
        },
    {
        let ghost rest = s@.subrange(pos as int, end as int);
        let ghost before = out@;
        let comma = find_char(s, pos, end, ',');
        let piece = s.substring_char(pos, comma);
        assert(piece@ =~= rest.subrange(0, comma - pos));
        match Url::parse(piece) {
            Ok(u) => out.push(u),
            Err(_) => {},
        }
        let ghost head = urls_view(out@).subrange(before.len() as int, out@.len() as int);
        assert(urls_view(out@) =~= urls_view(before) + head);
        if comma < end {
            assert(rest.subrange(comma - pos + 1, rest.len() as int) =~= s@.subrange(
                comma + 1,
                end as int,
            ));
            pos = comma + 1;
        } else {
            finished = true;
            assert(urls_view(out@) + seq![] =~= urls_view(out@));
        }
    }
    out
}

/// A RASL link.
#[derive(Debug, Clone, PartialEq, Eq)]
pub struct RaslLink {
    /// CID for the data.
    pub cid: Cid,
    /// Seeds: URLs whose hosts serve the data at the RASL well-known endpoint.
    pub rs: Vec<Url>,
}

/// `web+rasl://`, the CID text, `;`, the authorities joined by `,`, and `/`.
pub open spec fn rasl_text(digest: Seq<u8>, authorities: Seq<Seq<char>>) -> Seq<char> {
    "web+rasl://"@ + cid_text(digest) + seq![';'] + joined_by_comma(authorities) + seq!['/']
}

pub open spec fn joined_by_comma(parts: Seq<Seq<char>>) -> Seq<char>
    decreases parts.len(),
{
    if parts.len() == 0 {
        seq![]
    } else if parts.len() == 1 {
        parts[0]
    } else {
        joined_by_comma(parts.drop_last()) + seq![','] + parts.last()
    }
}

/// `https://`, the authority, and `/.well-known/rasl/`.
pub open spec fn rasl_endpoint_text(authority: Seq<char>) -> Seq<char> {
    "https://"@ + authority + "/.well-known/rasl/"@
}

/// The RASL endpoints of seed URLs, in order; seeds without one are dropped.
pub open spec fn rasl_endpoints(seeds: Seq<Seq<char>>) -> Seq<Seq<char>>
    decreases seeds.len(),
{
    if seeds.len() == 0 {
        seq![]
    } else {
        let a = url_authority(seeds.last());
        rasl_endpoints(seeds.drop_last()) + if a.len() == 0 {
            seq![]
        } else {
            match url_parse(rasl_endpoint_text(a)) {
                Some(h) => seq![h],
                None => seq![],
            }
        }
    }
}

/// The RASL endpoint of a seed URL: `https://<authority>/.well-known/rasl/`.
pub fn into_rasl_url(url: &Url) -> (r: Result<Url, Error>)
    ensures
        url_authority(url@).len() == 0 ==> r == Err::<Url, Error>(Error::InvalidRaslEndpoint),
        url_authority(url@).len() > 0 ==> match url_parse(rasl_endpoint_text(url_authority(url@))) {
            Some(h) => r is Ok && r->Ok_0@ == h,
            None => r == Err::<Url, Error>(Error::Url(UrlError)),
        },
{
    let authority = url.authority();
    if authority.unicode_len() == 0 {
        return Err(Error::InvalidRaslEndpoint);
    }
    let text = String::from_str("https://").concat(authority.as_str()).concat("/.well-known/rasl/");
    match Url::parse(text.as_str()) {
        Ok(u) => Ok(u),
        Err(e) => Err(Error::Url(e)),
    }
}

impl RaslLink {
    /// A link with a CID and no seeds.
    pub fn new(cid: Cid) -> (r: RaslLink)
        ensures
            r.cid == cid,
            r.rs@.len() == 0,
    {
        RaslLink { cid, rs: Vec::new() }
    }

    /// Parses `web+rasl://<cid>;<seeds>/`; seeds that are not absolute URLs are dropped.
    pub fn parse(url_str: &str) -> (r: Result<RaslLink, Error>)
        ensures
            match parse_rasl_spec(url_str@) {
                Ok((d, seeds)) => r is Ok && r->Ok_0.cid.0@ == d && urls_view(r->Ok_0.rs@) == seeds,
                Err(e) => r is Err && r->Err_0 == e,
            },
    {
        let url = match Url::parse(url_str) {
            Ok(u) => u,
            Err(e) => {
                return Err(Error::Url(e));
            },
        };
        let authority = url.authority();
        let n = authority.unicode_len();
        let semi = find_char(authority.as_str(), 0, n, ';');
        assert(authority@.subrange(0, n as int) =~= authority@);
        if semi >= n {
            return Err(Error::Value);
        }
        let rs = parse_origins(authority.as_str(), semi + 1, n);
        let cid_part = authority.as_str().substring_char(0, semi);
        match Cid::parse(cid_part) {
            Ok(cid) => Ok(RaslLink { cid, rs }),
            Err(e) => Err(Error::Cid(e.kind)),
        }
    }

    /// The `web+rasl://` URL of this link, if it parses as one.
    pub fn to_string(&self) -> (r: Option<String>)
        ensures
            match url_parse(
                rasl_text(self.cid.0@, self.rs@.map_values(|u: Url| url_authority(u@))),
            ) {
                Some(h) => r is Some && r->Some_0@ == h,
                None => r is None,
            },
    {
        let ghost auths = self.rs@.map_values(|u: Url| url_authority(u@));
        let mut text = String::from_str("web+rasl://").concat(self.cid.to_string().as_str()).concat(";");
        let ghost head = text@;
        proof {
            reveal_strlit("web+rasl://");
            reveal_strlit(";");
        }
        let mut i: usize = 0;
        while i < self.rs.len()
            invariant
                i <= self.rs@.len(),
                auths == self.rs@.map_values(|u: Url| url_authority(u@)),
                text@ == head + joined_by_comma(auths.subrange(0, i as int)),
            decreases self.rs@.len() - i,
        {
            let ghost sub = auths.subrange(0, i + 1);
            assert(sub.drop_last() =~= auths.subrange(0, i as int));
            if i > 0 {
                text = text.concat(",");
                proof {
                    reveal_strlit(",");
                }
            }
            let a = self.rs[i].authority();
            text = text.concat(a.as_str());
            proof {
                if i == 0 {
                    assert(sub =~= seq![a@]);
                }
                assert(text@ =~= head + joined_by_comma(sub));
            }
            i = i + 1;
        }
        assert(auths.subrange(0, self.rs@.len() as int) =~= auths);
        text = text.concat("/");
        proof {
            reveal_strlit("/");
        }
        assert(text@ =~= rasl_text(self.cid.0@, auths));
        match Url::parse(text.as_str()) {
            Ok(u) => Some(String::from_str(u.as_str())),
            Err(_) => None,
        }
    }

    /// The magnet link with this CID whose CDN bases are the seeds' RASL
    /// endpoints; seeds without an authority are dropped.
    pub fn into_magnet(&self) -> (r: MagnetLink)
        ensures
            r.cid == self.cid,
            r.ws@.len() == 0,
            r.xt is None,
            r.dn is None,
            urls_view(r.cdn@) == rasl_endpoints(urls_view(self.rs@)),
    {
        let mut magnet = MagnetLink::new(self.cid);
        let mut i: usize = 0;
        while i < self.rs.len()
            invariant
                i <= self.rs@.len(),
                magnet.cid == self.cid,
                magnet.ws@.len() == 0,
                magnet.xt is None,
                magnet.dn is None,
                urls_view(magnet.cdn@) == rasl_endpoints(urls_view(self.rs@).subrange(0, i as int)),
            decreases self.rs@.len() - i,
        {
            let ghost before = magnet.cdn@;
            let ghost sub = urls_view(self.rs@).subrange(0, i + 1);
            assert(sub.drop_last() =~= urls_view(self.rs@).subrange(0, i as int));
            assert(sub.last() == self.rs@[i as int]@);
            match into_rasl_url(&self.rs[i]) {
                Ok(u) => magnet.cdn.push(u),
                Err(_) => {},
            }
            assert(urls_view(magnet.cdn@) =~= urls_view(before) + urls_view(magnet.cdn@).subrange(
                before.len() as int,
                magnet.cdn@.len() as int,
            ));
            i = i + 1;
        }
        assert(urls_view(self.rs@).subrange(0, self.rs@.len() as int) =~= urls_view(self.rs@));
        magnet
    }
}

} // verus!
