//! Magnet links: `magnet:?cid=...&xt=...&dn=...&cdn=...&ws=...`, their parsing,
//! their serialization, and the candidate URLs that a fetcher tries.
use vstd::prelude::*;
use vstd::string::*;
use vstd::utf8::{decode_utf8, encode_utf8, is_ascii_chars, is_ascii_chars_encode_utf8, valid_utf8};
use crate::cid::{cid_text, parse_text_spec, sha256, Cid, CidErrorKind};
use crate::form::{
    ascii_text, form_decode, form_encode, lemma_form_decode_letters, lemma_form_encode_safe, lemma_form_round_trip, push_char,
    push_form_encoded,
};
use crate::query::{
    decode_pair, find_byte, index_of, lemma_index_of, pairs_view, parse_query, query_pairs,
};
use crate::url::{is_absolute_url, url_join, url_parse, Url, UrlError};

verus! {

broadcast use vstd::utf8::group_utf8_lib;

/// The parameter names of a magnet link.
#[derive(Debug, Clone, Copy, PartialEq, Eq, Structural)]
pub enum ParamKey {
    Cid,
    Ws,
    Cdn,
    Xt,
    Dn,
    Other,
}

/// Which parameter a decoded name is; names are case-sensitive.
pub open spec fn key_of(k: Seq<u8>) -> ParamKey {
    if k == seq![99u8, 105u8, 100u8] {
        ParamKey::Cid
    } else if k == seq![119u8, 115u8] {
        ParamKey::Ws
    } else if k == seq![99u8, 100u8, 110u8] {
        ParamKey::Cdn
    } else if k == seq![120u8, 116u8] {
        ParamKey::Xt
    } else if k == seq![100u8, 110u8] {
        ParamKey::Dn
    } else {
        ParamKey::Other
    }
}

/// The bytes of a parameter name.
pub open spec fn key_bytes(k: ParamKey) -> Seq<u8> {
    match k {
        ParamKey::Cid => seq![99u8, 105u8, 100u8],
        ParamKey::Ws => seq![119u8, 115u8],
        ParamKey::Cdn => seq![99u8, 100u8, 110u8],
        ParamKey::Xt => seq![120u8, 116u8],
        ParamKey::Dn => seq![100u8, 110u8],
        ParamKey::Other => seq![],
    }
}

/// The values of one parameter, in the order they appear.
pub open spec fn param_values(ps: Seq<(Seq<u8>, Seq<u8>)>, key: ParamKey) -> Seq<Seq<u8>>
    decreases ps.len(),
{
    if ps.len() == 0 {
        seq![]
    } else {
        param_values(ps.drop_last(), key) + if key_of(ps.last().0) == key {
            seq![ps.last().1]
        } else {
            seq![]
        }
    }
}

/// A value as text, when it is valid UTF-8.
pub open spec fn text_of(b: Seq<u8>) -> Option<Seq<char>> {
    if valid_utf8(b) {
        Some(decode_utf8(b))
    } else {
        None
    }
}

/// The first value as text; `None` when there is none or it is not UTF-8.
pub open spec fn first_text(vs: Seq<Seq<u8>>) -> Option<Seq<char>> {
    if vs.len() == 0 {
        None
    } else {
        text_of(vs[0])
    }
}

/// The values that are absolute URLs, as their serializations, in order; the others are dropped.
pub open spec fn url_list(vs: Seq<Seq<u8>>) -> Seq<Seq<char>>
    decreases vs.len(),
{
    if vs.len() == 0 {
        seq![]
    } else {
        url_list(vs.drop_last()) + match text_of(vs.last()) {
            Some(t) => match url_parse(t) {
                Some(h) => seq![h],
                None => seq![],
            },
            None => seq![],
        }
    }
}

/// The bytes `magnet:?`.
pub open spec fn magnet_prefix() -> Seq<u8> {
    seq![109u8, 97u8, 103u8, 110u8, 101u8, 116u8, 58u8, 63u8]
}

/// The query of a magnet URI: what follows `magnet:?`, up to a `#` if there is one.
pub open spec fn magnet_query(s: Seq<char>) -> Option<Seq<u8>> {
    let b = encode_utf8(s);
    if b.len() >= 8 && b.subrange(0, 8) == magnet_prefix() {
        let rest = b.subrange(8, b.len() as int);
        Some(rest.subrange(0, index_of(rest, 35) as int))
    } else {
        None
    }
}

/// A magnet link as plain values.
pub struct MagnetView {
    pub cid: Seq<u8>,
    pub ws: Seq<Seq<char>>,
    pub cdn: Seq<Seq<char>>,
    pub xt: Option<Seq<char>>,
    pub dn: Option<Seq<char>>,
}

/// Why a text is not a magnet link.
#[derive(Debug, Clone, Copy, PartialEq, Eq, Structural)]
pub enum Error {
    /// The text is not a `magnet:?` URI.
    UrlParseError(UrlError),
    /// No `cid` parameter.
    MissingCid,
    /// The first `cid` parameter is not a CID.
    InvalidCid(CidErrorKind),
}

/// What parsing a text gives: the link, or why there is none.
pub open spec fn parse_magnet_spec(s: Seq<char>) -> Result<MagnetView, Error> {
    match magnet_query(s) {
        None => Err(Error::UrlParseError(UrlError)),
        Some(q) => {
            let ps = query_pairs(q);
            let cids = param_values(ps, ParamKey::Cid);
            if cids.len() == 0 {
                Err(Error::MissingCid)
            } else {
                match text_of(cids[0]) {
                    None => Err(Error::InvalidCid(CidErrorKind::BadBase32)),
                    Some(t) => match parse_text_spec(t) {
                        Err(k) => Err(Error::InvalidCid(k)),
                        Ok(d) => Ok(
                            MagnetView {
                                cid: d,
                                ws: url_list(param_values(ps, ParamKey::Ws)),
                                cdn: url_list(param_values(ps, ParamKey::Cdn)),
                                xt: first_text(param_values(ps, ParamKey::Xt)),
                                dn: first_text(param_values(ps, ParamKey::Dn)),
                            },
                        ),
                    },
                }
            }
        },
    }
}

/// One serialized pair: `name=value`, the value form-urlencoded.
pub open spec fn pair_bytes(p: (ParamKey, Seq<u8>)) -> Seq<u8> {
    key_bytes(p.0) + seq![61u8] + form_encode(p.1)
}

/// Serialized pairs joined by `&`.
pub open spec fn query_text(ps: Seq<(ParamKey, Seq<u8>)>) -> Seq<u8>
    decreases ps.len(),
{
    if ps.len() == 0 {
        seq![]
    } else if ps.len() == 1 {
        pair_bytes(ps[0])
    } else {
        query_text(ps.drop_last()) + seq![38u8] + pair_bytes(ps.last())
    }
}

pub open spec fn opt_pair(key: ParamKey, v: Option<Seq<char>>) -> Seq<(ParamKey, Seq<u8>)> {
    match v {
        Some(t) => seq![(key, encode_utf8(t))],
        None => seq![],
    }
}

pub open spec fn url_pairs(key: ParamKey, us: Seq<Seq<char>>) -> Seq<(ParamKey, Seq<u8>)> {
    us.map_values(|u: Seq<char>| (key, encode_utf8(u)))
}

/// The pairs of a link in the order they are written: `cid`, `xt`, `dn`, every `cdn`, every `ws`.
pub open spec fn magnet_pairs(m: MagnetView) -> Seq<(ParamKey, Seq<u8>)> {
    seq![(ParamKey::Cid, encode_utf8(cid_text(m.cid)))] + opt_pair(ParamKey::Xt, m.xt) + opt_pair(
        ParamKey::Dn,
        m.dn,
    ) + url_pairs(ParamKey::Cdn, m.cdn) + url_pairs(ParamKey::Ws, m.ws)
}

/// The text of a link.
pub open spec fn magnet_text(m: MagnetView) -> Seq<char> {
    ascii_text(magnet_prefix() + query_text(magnet_pairs(m)))
}

/// The URLs at which the blob of a link may be fetched: each `cdn` base joined
/// with the CID text, then each `ws` entry, in order; failed joins are dropped.
pub open spec fn candidates(m: MagnetView) -> Seq<Seq<char>> {
    joined(m.cdn, cid_text(m.cid)) + m.ws
}

pub open spec fn joined(bases: Seq<Seq<char>>, rel: Seq<char>) -> Seq<Seq<char>>
    decreases bases.len(),
{
    if bases.len() == 0 {
        seq![]
    } else {
        joined(bases.drop_last(), rel) + match url_join(bases.last(), rel) {
            Some(h) => seq![h],
            None => seq![],
        }
    }
}

pub open spec fn urls_view(v: Seq<Url>) -> Seq<Seq<char>> {
    v.map_values(|u: Url| u@)
}

pub open spec fn opt_view(v: Option<String>) -> Option<Seq<char>> {
    match v {
        Some(s) => Some(s@),
        None => None,
    }
}

/// A link that serialization and parsing carry unchanged: its digest is 32
/// bytes long, its CID text has the 59 characters that `Cid::to_string`
/// gives, and every `ws` and `cdn` entry is an absolute URL.
pub open spec fn is_link_valid(m: MagnetView) -> bool {
    &&& m.cid.len() == 32
    &&& cid_text(m.cid).len() == 59
    &&& forall|i: int| 0 <= i < m.ws.len() ==> is_absolute_url(#[trigger] m.ws[i])
    &&& forall|i: int| 0 <= i < m.cdn.len() ==> is_absolute_url(#[trigger] m.cdn[i])
}

/// Pairs as the parser sees them: the name as bytes.
pub open spec fn named_pairs(ps: Seq<(ParamKey, Seq<u8>)>) -> Seq<(Seq<u8>, Seq<u8>)> {
    ps.map_values(|p: (ParamKey, Seq<u8>)| (key_bytes(p.0), p.1))
}

pub open spec fn real_keys(ps: Seq<(ParamKey, Seq<u8>)>) -> bool {
    forall|i: int| 0 <= i < ps.len() ==> (#[trigger] ps[i]).0 != ParamKey::Other
}

proof fn lemma_index_of_at(s: Seq<u8>, b: u8, k: int)
    requires
        0 <= k <= s.len(),
        forall|j: int| 0 <= j < k ==> s[j] != b,
        k == s.len() || s[k] == b,
    ensures
        index_of(s, b) == k,
{
    lemma_index_of(s, b);
    let i = index_of(s, b) as int;
    if i < k {
        assert(s[i] != b);
    }
    if i > k {
        assert(s[k] != b);
    }
}

proof fn lemma_query_text_front(ps: Seq<(ParamKey, Seq<u8>)>)
    requires
        ps.len() >= 2,
    ensures
        query_text(ps) == pair_bytes(ps[0]) + seq![38u8] + query_text(ps.drop_first()),
    decreases ps.len(),
{
    if ps.len() == 2 {
        assert(ps.drop_last() =~= seq![ps[0]]);
        assert(ps.drop_first() =~= seq![ps[1]]);
        assert(query_text(ps.drop_last()) == pair_bytes(ps[0]));
        assert(query_text(ps.drop_first()) == pair_bytes(ps[1]));
    } else {
        let dl = ps.drop_last();
        let df = ps.drop_first();
        lemma_query_text_front(dl);
        assert(dl.drop_first() =~= df.drop_last());
        assert(dl[0] == ps[0]);
        assert(df.last() == ps.last());
        assert(query_text(df) == query_text(df.drop_last()) + seq![38u8] + pair_bytes(df.last()));
        assert(query_text(ps) =~= pair_bytes(ps[0]) + seq![38u8] + query_text(df));
    }
}

proof fn lemma_key_bytes(k: ParamKey)
    requires
        k != ParamKey::Other,
    ensures
        key_of(key_bytes(k)) == k,
        key_bytes(k).len() >= 2,
        form_decode(key_bytes(k)) == key_bytes(k),
        forall|j: int| 0 <= j < key_bytes(k).len() ==> 97 <= #[trigger] key_bytes(k)[j] <= 122,
{
    lemma_form_decode_letters(key_bytes(k));
}

proof fn lemma_pair_bytes(p: (ParamKey, Seq<u8>))
    requires
        p.0 != ParamKey::Other,
    ensures
        index_of(pair_bytes(p), 38) == pair_bytes(p).len(),
        pair_bytes(p).len() > 0,
        decode_pair(pair_bytes(p)) == (key_bytes(p.0), p.1),
        forall|j: int|
            0 <= j < pair_bytes(p).len() ==> #[trigger] pair_bytes(p)[j] < 128 && pair_bytes(p)[j]
                != 35 && pair_bytes(p)[j] != 38,
{
    let kb = key_bytes(p.0);
    let enc = form_encode(p.1);
    let seg = pair_bytes(p);
    lemma_key_bytes(p.0);
    lemma_form_encode_safe(p.1);
    lemma_form_round_trip(p.1);
    assert forall|j: int| 0 <= j < seg.len() implies #[trigger] seg[j] < 128 && seg[j] != 35
        && seg[j] != 38 && (j != kb.len() ==> seg[j] != 61) by {
        if j < kb.len() {
            assert(seg[j] == kb[j]);
        } else if j > kb.len() {
            assert(seg[j] == enc[j - kb.len() - 1]);
        }
    }
    lemma_index_of_at(seg, 38, seg.len() as int);
    lemma_index_of_at(seg, 61, kb.len() as int);
    assert(seg.subrange(0, kb.len() as int) =~= kb);
    assert(seg.subrange(kb.len() as int + 1, seg.len() as int) =~= enc);
}

proof fn lemma_query_round_trip(ps: Seq<(ParamKey, Seq<u8>)>)
    requires
        ps.len() >= 1,
        real_keys(ps),
    ensures
        query_pairs(query_text(ps)) == named_pairs(ps),
        forall|j: int|
            0 <= j < query_text(ps).len() ==> #[trigger] query_text(ps)[j] < 128 && query_text(
                ps,
            )[j] != 35,
    decreases ps.len(),
{
    let seg = pair_bytes(ps[0]);
    lemma_pair_bytes(ps[0]);
    if ps.len() == 1 {
        assert(seg.subrange(0, seg.len() as int) =~= seg);
        assert(named_pairs(ps) =~= seq![decode_pair(seg)]);
    } else {
        lemma_query_text_front(ps);
        let rest = query_text(ps.drop_first());
        let q = seg + seq![38u8] + rest;
        lemma_query_round_trip(ps.drop_first());
        assert forall|j: int| 0 <= j < seg.len() implies q[j] != 38 by {
            assert(q[j] == seg[j]);
        }
        lemma_index_of_at(q, 38, seg.len() as int);
        assert(q.subrange(0, seg.len() as int) =~= seg);
        assert(q.subrange(seg.len() as int + 1, q.len() as int) =~= rest);
        assert(named_pairs(ps) =~= seq![(key_bytes(ps[0].0), ps[0].1)] + named_pairs(
            ps.drop_first(),
        ));
        assert forall|j: int| 0 <= j < q.len() implies #[trigger] q[j] < 128 && q[j] != 35 by {
            if j < seg.len() {
                assert(q[j] == seg[j]);
            } else if j > seg.len() {
                assert(q[j] == rest[j - seg.len() - 1]);
            }
        }
    }
}

proof fn lemma_param_values_concat(a: Seq<(Seq<u8>, Seq<u8>)>, b: Seq<(Seq<u8>, Seq<u8>)>, k: ParamKey)
    ensures
        param_values(a + b, k) == param_values(a, k) + param_values(b, k),
    decreases b.len(),
{
    if b.len() == 0 {
        assert(a + b =~= a);
        assert(param_values(a, k) + param_values(b, k) =~= param_values(a, k));
    } else {
        assert((a + b).drop_last() =~= a + b.drop_last());
        lemma_param_values_concat(a, b.drop_last(), k);
        assert((a + b).last() == b.last());
        assert(param_values(a + b, k) =~= param_values(a, k) + param_values(b, k));
    }
}

proof fn lemma_param_values_urls(key: ParamKey, us: Seq<Seq<char>>, k: ParamKey)
    requires
        key != ParamKey::Other,
    ensures
        param_values(named_pairs(url_pairs(key, us)), k) == if k == key {
            us.map_values(|u: Seq<char>| encode_utf8(u))
        } else {
            seq![]
        },
    decreases us.len(),
{
    lemma_key_bytes(key);
    if us.len() > 0 {
        lemma_param_values_urls(key, us.drop_last(), k);
        assert(named_pairs(url_pairs(key, us)).drop_last() =~= named_pairs(
            url_pairs(key, us.drop_last()),
        ));
        if k == key {
            assert(us.map_values(|u: Seq<char>| encode_utf8(u)) =~= us.drop_last().map_values(
                |u: Seq<char>| encode_utf8(u),
            ).push(encode_utf8(us.last())));
        }
    } else {
        assert(named_pairs(url_pairs(key, us)) =~= seq![]);
        assert(us.map_values(|u: Seq<char>| encode_utf8(u)) =~= seq![]);
    }
}

proof fn lemma_param_values_single(p: (ParamKey, Seq<u8>), k: ParamKey)
    requires
        p.0 != ParamKey::Other,
    ensures
        param_values(named_pairs(seq![p]), k) == if k == p.0 {
            seq![p.1]
        } else {
            seq![]
        },
{
    lemma_key_bytes(p.0);
    let np = named_pairs(seq![p]);
    assert(np.drop_last() =~= seq![]);
    assert(np.last() == (key_bytes(p.0), p.1));
    assert(param_values(np.drop_last(), k) =~= seq![]);
    assert(param_values(np, k) =~= if k == p.0 {
        seq![p.1]
    } else {
        seq![]
    });
}

proof fn lemma_param_values_opt(key: ParamKey, v: Option<Seq<char>>, k: ParamKey)
    requires
        key != ParamKey::Other,
    ensures
        param_values(named_pairs(opt_pair(key, v)), k) == if k == key && v is Some {
            seq![encode_utf8(v->Some_0)]
        } else {
            seq![]
        },
{
    match v {
        Some(t) => lemma_param_values_single((key, encode_utf8(t)), k),
        None => {
            assert(named_pairs(opt_pair(key, v)) =~= seq![]);
        },
    }
}

proof fn lemma_url_list_absolute(us: Seq<Seq<char>>)
    requires
        forall|i: int| 0 <= i < us.len() ==> is_absolute_url(#[trigger] us[i]),
    ensures
        url_list(us.map_values(|u: Seq<char>| encode_utf8(u))) == us,
    decreases us.len(),
{
    if us.len() > 0 {
        let vs = us.map_values(|u: Seq<char>| encode_utf8(u));
        assert(vs.drop_last() =~= us.drop_last().map_values(|u: Seq<char>| encode_utf8(u)));
        lemma_url_list_absolute(us.drop_last());
        assert(is_absolute_url(us[us.len() - 1]));
        assert(us =~= us.drop_last().push(us.last()));
    } else {
        assert(us.map_values(|u: Seq<char>| encode_utf8(u)) =~= seq![]);
    }
}

/// What the parser finds in the text of a valid link: one `cid` value, the
/// `ws` and `cdn` lists, and the `xt` and `dn` values, all as they were.
pub proof fn lemma_magnet_text_parses(m: MagnetView)
    requires
        is_link_valid(m),
    ensures
        ({
            let q = query_text(magnet_pairs(m));
            let ps = query_pairs(q);
            &&& magnet_query(magnet_text(m)) == Some(q)
            &&& param_values(ps, ParamKey::Cid) == seq![encode_utf8(cid_text(m.cid))]
            &&& url_list(param_values(ps, ParamKey::Ws)) == m.ws
            &&& url_list(param_values(ps, ParamKey::Cdn)) == m.cdn
            &&& first_text(param_values(ps, ParamKey::Xt)) == m.xt
            &&& first_text(param_values(ps, ParamKey::Dn)) == m.dn
        }),
{
    let c = seq![(ParamKey::Cid, encode_utf8(cid_text(m.cid)))];
    let x = opt_pair(ParamKey::Xt, m.xt);
    let d = opt_pair(ParamKey::Dn, m.dn);
    let cd = url_pairs(ParamKey::Cdn, m.cdn);
    let w = url_pairs(ParamKey::Ws, m.ws);
    let all = magnet_pairs(m);
    assert(all == c + x + d + cd + w);
    assert(real_keys(all)) by {
        assert forall|i: int| 0 <= i < all.len() implies (#[trigger] all[i]).0 != ParamKey::Other by {
            let n1 = c.len() + x.len();
            let n2 = n1 + d.len();
            let n3 = n2 + cd.len();
            if i >= n3 {
                assert(all[i] == w[i - n3]);
            } else if i >= n2 {
                assert(all[i] == cd[i - n2]);
            }
        }
    }
    lemma_query_round_trip(all);
    let q = query_text(all);
    let ps = query_pairs(q);
    assert(named_pairs(all) =~= named_pairs(c) + named_pairs(x) + named_pairs(d) + named_pairs(cd)
        + named_pairs(w));
    assert forall|k: ParamKey| #![auto]
        param_values(ps, k) == param_values(named_pairs(c), k) + param_values(named_pairs(x), k)
            + param_values(named_pairs(d), k) + param_values(named_pairs(cd), k) + param_values(
            named_pairs(w),
            k,
        ) by {
        lemma_param_values_concat(named_pairs(c), named_pairs(x), k);
        lemma_param_values_concat(named_pairs(c) + named_pairs(x), named_pairs(d), k);
        lemma_param_values_concat(named_pairs(c) + named_pairs(x) + named_pairs(d), named_pairs(cd), k);
        lemma_param_values_concat(
            named_pairs(c) + named_pairs(x) + named_pairs(d) + named_pairs(cd),
            named_pairs(w),
            k,
        );
    }
    assert forall|k: ParamKey| #![auto] k != ParamKey::Other implies {
        &&& param_values(named_pairs(c), k) == if k == ParamKey::Cid {
            seq![encode_utf8(cid_text(m.cid))]
        } else {
            seq![]
        }
        &&& param_values(named_pairs(x), k) == if k == ParamKey::Xt && m.xt is Some {
            seq![encode_utf8(m.xt->Some_0)]
        } else {
            seq![]
        }
        &&& param_values(named_pairs(d), k) == if k == ParamKey::Dn && m.dn is Some {
            seq![encode_utf8(m.dn->Some_0)]
        } else {
            seq![]
        }
        &&& param_values(named_pairs(cd), k) == if k == ParamKey::Cdn {
            m.cdn.map_values(|u: Seq<char>| encode_utf8(u))
        } else {
            seq![]
        }
        &&& param_values(named_pairs(w), k) == if k == ParamKey::Ws {
            m.ws.map_values(|u: Seq<char>| encode_utf8(u))
        } else {
            seq![]
        }
    } by {
        lemma_param_values_single((ParamKey::Cid, encode_utf8(cid_text(m.cid))), k);
        lemma_param_values_opt(ParamKey::Xt, m.xt, k);
        lemma_param_values_opt(ParamKey::Dn, m.dn, k);
        lemma_param_values_urls(ParamKey::Cdn, m.cdn, k);
        lemma_param_values_urls(ParamKey::Ws, m.ws, k);
    }
    let e: Seq<Seq<u8>> = seq![];
    assert(param_values(ps, ParamKey::Cid) =~= seq![encode_utf8(cid_text(m.cid))]);
    assert(param_values(ps, ParamKey::Ws) =~= m.ws.map_values(|u: Seq<char>| encode_utf8(u)));
    assert(param_values(ps, ParamKey::Cdn) =~= m.cdn.map_values(|u: Seq<char>| encode_utf8(u)));
    lemma_url_list_absolute(m.ws);
    lemma_url_list_absolute(m.cdn);
    match m.xt {
        Some(t) => assert(param_values(ps, ParamKey::Xt) =~= seq![encode_utf8(t)]),
        None => assert(param_values(ps, ParamKey::Xt) =~= e),
    }
    match m.dn {
        Some(t) => assert(param_values(ps, ParamKey::Dn) =~= seq![encode_utf8(t)]),
        None => assert(param_values(ps, ParamKey::Dn) =~= e),
    }
    // the text is ASCII, so its UTF-8 bytes are the serialized bytes
    let b = magnet_prefix() + q;
    assert forall|j: int| 0 <= j < b.len() implies #[trigger] b[j] < 128 by {
        if j >= 8 {
            assert(b[j] == q[j - 8]);
        }
    }
    let t = magnet_text(m);
    assert(is_ascii_chars(t));
    is_ascii_chars_encode_utf8(t);
    assert(encode_utf8(t) =~= b);
    let rest = b.subrange(8, b.len() as int);
    assert(rest =~= q);
    assert(b.subrange(0, 8) =~= magnet_prefix());
    lemma_index_of_at(q, 35, q.len() as int);
    assert(q.subrange(0, q.len() as int) =~= q);
}

/// A `magnet:?` URI without a `cid` parameter is refused as missing its CID.
pub proof fn lemma_magnet_requires_cid(s: Seq<char>)
    requires
        magnet_query(s) is Some,
        param_values(query_pairs(magnet_query(s)->Some_0), ParamKey::Cid).len() == 0,
    ensures
        parse_magnet_spec(s) == Err::<MagnetView, Error>(Error::MissingCid),
{
}

proof fn lemma_joined_all(bases: Seq<Seq<char>>, rel: Seq<char>)
    requires
        forall|i: int| 0 <= i < bases.len() ==> (#[trigger] url_join(bases[i], rel)) is Some,
    ensures
        joined(bases, rel).len() == bases.len(),
        forall|i: int| 0 <= i < bases.len() ==> #[trigger] joined(bases, rel)[i] == url_join(bases[i], rel)->Some_0,
    decreases bases.len(),
{
    if bases.len() > 0 {
        let dl = bases.drop_last();
        assert forall|i: int| 0 <= i < dl.len() implies (#[trigger] url_join(dl[i], rel)) is Some by {
            assert(dl[i] == bases[i]);
        }
        lemma_joined_all(dl, rel);
        assert(url_join(bases[bases.len() - 1], rel) is Some);
        assert forall|i: int| 0 <= i < bases.len() implies #[trigger] joined(bases, rel)[i] == url_join(bases[i], rel)->Some_0 by {
            if i < dl.len() {
                assert(dl[i] == bases[i]);
            }
        }
    }
}

/// The candidates of a link are the `cdn` bases joined with the CID text and
/// then the `ws` entries, each list in its own order: when every join
/// succeeds, the `i`-th candidate is the `i`-th base joined, and the rest are
/// the web seeds as given.
pub proof fn lemma_candidate_order(m: MagnetView)
    ensures
        candidates(m).subrange(
            candidates(m).len() - m.ws.len(),
            candidates(m).len() as int,
        ) == m.ws,
        (forall|i: int| 0 <= i < m.cdn.len() ==> (#[trigger] url_join(m.cdn[i], cid_text(m.cid))) is Some)
            ==> {
            &&& candidates(m).len() == m.cdn.len() + m.ws.len()
            &&& forall|i: int|
                0 <= i < m.cdn.len() ==> #[trigger] candidates(m)[i] == url_join(
                    m.cdn[i],
                    cid_text(m.cid),
                )->Some_0
            &&& forall|j: int| 0 <= j < m.ws.len() ==> #[trigger] candidates(m)[m.cdn.len() + j] == m.ws[j]
        },
{
    let t = cid_text(m.cid);
    let c = candidates(m);
    assert(c.subrange(c.len() - m.ws.len(), c.len() as int) =~= m.ws);
    if forall|i: int| 0 <= i < m.cdn.len() ==> (#[trigger] url_join(m.cdn[i], t)) is Some {
        lemma_joined_all(m.cdn, t);
    }
}

/// Relies on `String::from_utf8`: the text whose UTF-8 encoding the bytes are, if they are valid UTF-8.
#[verifier::external_body]
fn utf8_string(bytes: Vec<u8>) -> (r: Option<String>)
    ensures
        r is Some <==> valid_utf8(bytes@),
        r is Some ==> r->Some_0@ == decode_utf8(bytes@),
{
    String::from_utf8(bytes).ok()
}

fn key_of_exec(k: &Vec<u8>) -> (r: ParamKey)
    ensures
        r == key_of(k@),
{
    let n = k.len();
    if n == 3 && k[0] == 99 && k[1] == 105 && k[2] == 100 {
        assert(k@ =~= seq![99u8, 105u8, 100u8]);
        ParamKey::Cid
    } else if n == 2 && k[0] == 119 && k[1] == 115 {
        assert(k@ =~= seq![119u8, 115u8]);
        ParamKey::Ws
    } else if n == 3 && k[0] == 99 && k[1] == 100 && k[2] == 110 {
        assert(k@ =~= seq![99u8, 100u8, 110u8]);
        ParamKey::Cdn
    } else if n == 2 && k[0] == 120 && k[1] == 116 {
        assert(k@ =~= seq![120u8, 116u8]);
        ParamKey::Xt
    } else if n == 2 && k[0] == 100 && k[1] == 110 {
        assert(k@ =~= seq![100u8, 110u8]);
        ParamKey::Dn
    } else {
        ParamKey::Other
    }
}

/// Parses a URL value, if it is UTF-8 and an absolute URL.
fn url_of_value(v: Vec<u8>) -> (r: Option<Url>)
    ensures
        match text_of(v@) {
            Some(t) => match url_parse(t) {
                Some(h) => r is Some && r->Some_0@ == h,
                None => r is None,
            },
            None => r is None,
        },
{
    match utf8_string(v) {
        None => None,
        Some(t) => match Url::parse(t.as_str()) {
            Ok(u) => Some(u),
            Err(_) => None,
        },
    }
}

/// Why web seeds do not make a link.
#[derive(Debug, Clone, Copy, PartialEq, Eq, Structural)]
pub enum LinkError {
    /// No seed gave a body.
    Unreachable,
    /// Two seeds gave bodies with different CIDs.
    Mismatch,
}

/// Whether some response is a body.
pub open spec fn any_body(bodies: Seq<Option<Seq<u8>>>) -> bool {
    exists|i: int| 0 <= i < bodies.len() && (#[trigger] bodies[i]) is Some
}

/// Whether every body has the digest `d`.
pub open spec fn all_digest(bodies: Seq<Option<Seq<u8>>>, d: Seq<u8>) -> bool {
    forall|i: int| 0 <= i < bodies.len() && (#[trigger] bodies[i]) is Some ==> sha256(bodies[i]->Some_0) == d
}

pub open spec fn bodies_view(v: Seq<Option<Vec<u8>>>) -> Seq<Option<Seq<u8>>> {
    v.map_values(|b: Option<Vec<u8>>| match b {
        Some(x) => Some(x@),
        None => None,
    })
}

/// A magnet link.
#[derive(Debug, Clone, PartialEq, Eq)]
pub struct MagnetLink {
    /// The CID of the blob.
    pub cid: Cid,
    /// Web seeds: URLs of the blob itself.
    pub ws: Vec<Url>,
    /// CDN bases: the blob is at each base joined with the CID text.
    pub cdn: Vec<Url>,
    /// An exact topic, carried along and not read.
    pub xt: Option<String>,
    /// A display name.
    pub dn: Option<String>,
}

impl MagnetLink {
    pub open spec fn view(&self) -> MagnetView {
        MagnetView {
            cid: self.cid.0@,
            ws: urls_view(self.ws@),
            cdn: urls_view(self.cdn@),
            xt: opt_view(self.xt),
            dn: opt_view(self.dn),
        }
    }

    /// A link with only a CID.
    pub fn new(cid: Cid) -> (r: MagnetLink)
        ensures
            r.cid == cid,
            r.ws@.len() == 0,
            r.cdn@.len() == 0,
            r.xt is None,
            r.dn is None,
    {
        MagnetLink { cid, ws: Vec::new(), cdn: Vec::new(), xt: None, dn: None }
    }

    /// The link of the content that every reachable web seed serves: `bodies[i]`
    /// is what `ws[i]` gave, or `None` when it could not be fetched. All the
    /// bodies must have one CID; the link lists every seed.
    pub fn from_web_seeds(ws: Vec<Url>, bodies: &Vec<Option<Vec<u8>>>) -> (r: Result<MagnetLink, LinkError>)
        ensures
            !any_body(bodies_view(bodies@)) ==> r == Err::<MagnetLink, LinkError>(LinkError::Unreachable),
            any_body(bodies_view(bodies@)) ==> match r {
                Ok(m) => all_digest(bodies_view(bodies@), m.cid.0@) && urls_view(m.ws@) == urls_view(ws@)
                    && m.cdn@.len() == 0 && m.xt is None && m.dn is None,
                Err(e) => e == LinkError::Mismatch && forall|d: Seq<u8>| !all_digest(bodies_view(bodies@), d),
            },
    {
        let ghost bv = bodies_view(bodies@);
        let mut found: Option<Cid> = None;
        let mut i: usize = 0;
        while i < bodies.len()
            invariant
                i <= bodies@.len(),
                bv == bodies_view(bodies@),
                found is None <==> !exists|k: int| 0 <= k < i && (#[trigger] bv[k]) is Some,
                found is Some ==> all_digest(bv.subrange(0, i as int), found->Some_0.0@),
            decreases bodies@.len() - i,
        {
            assert(bv[i as int] == match bodies@[i as int] {
                Some(x) => Some(x@),
                None => None,
            });
            match &bodies[i] {
                None => {},
                Some(b) => {
                    let c = Cid::of(b.as_slice());
                    match found {
                        None => {
                            found = Some(c);
                        },
                        Some(f) => {
                            if !f.same_as(&c) {
                                proof {
                                    assert forall|d: Seq<u8>| !all_digest(bv, d) by {
                                        let k = choose|k: int| 0 <= k < i && (#[trigger] bv[k]) is Some;
                                        assert(bv.subrange(0, i as int)[k] == bv[k]);
                                    }
                                }
                                return Err(LinkError::Mismatch);
                            }
                        },
                    }
                },
            }
            proof {
                if found is Some {
                    assert forall|k: int| 0 <= k < i + 1 && (#[trigger] bv.subrange(0, i + 1)[k]) is Some implies sha256(
                        bv.subrange(0, i + 1)[k]->Some_0,
                    ) == found->Some_0.0@ by {
                        if k < i {
                            assert(bv.subrange(0, i + 1)[k] == bv.subrange(0, i as int)[k]);
                        }
                    }
                }
                if exists|k: int| 0 <= k < i + 1 && (#[trigger] bv[k]) is Some {
                    let k = choose|k: int| 0 <= k < i + 1 && (#[trigger] bv[k]) is Some;
                    if k < i {
                        assert(exists|k2: int| 0 <= k2 < i && (#[trigger] bv[k2]) is Some);
                    }
                }
            }
            i = i + 1;
        }
        assert(bv.subrange(0, bodies@.len() as int) =~= bv);
        match found {
            None => Err(LinkError::Unreachable),
            Some(cid) => {
                let mut m = MagnetLink::new(cid);
                m.ws = ws;
                Ok(m)
            },
        }
    }

    /// Parses a magnet link.
    pub fn parse(text: &str) -> (r: Result<MagnetLink, Error>)
        ensures
            match parse_magnet_spec(text@) {
                Ok(m) => r is Ok && r->Ok_0.view() == m,
                Err(e) => r is Err && r->Err_0 == e,
            },
            forall|m: MagnetView|
                is_link_valid(m) && text@ == #[trigger] magnet_text(m) ==> r is Ok && r->Ok_0.view()
                    == m,
    {
        let bytes = text.as_bytes();
        let n = bytes.len();
        if n < 8 || bytes[0] != 109 || bytes[1] != 97 || bytes[2] != 103 || bytes[3] != 110
            || bytes[4] != 101 || bytes[5] != 116 || bytes[6] != 58 || bytes[7] != 63 {
            proof {
                if bytes@.len() >= 8 {
                    assert(bytes@.subrange(0, 8) != magnet_prefix()) by {
                        let p = bytes@.subrange(0, 8);
                        assert(p[0] == bytes@[0] && p[1] == bytes@[1] && p[2] == bytes@[2] && p[3]
                            == bytes@[3] && p[4] == bytes@[4] && p[5] == bytes@[5] && p[6]
                            == bytes@[6] && p[7] == bytes@[7]);
                    }
                }
                assert forall|m: MagnetView| is_link_valid(m) implies text@ != #[trigger] magnet_text(
                    m,
                ) by {
                    lemma_magnet_text_parses(m);
                }
            }
            return Err(Error::UrlParseError(UrlError));
        }
        assert(bytes@.subrange(0, 8) =~= magnet_prefix());
        let end = find_byte(bytes, 8, n, 35);
        let pairs = parse_query(bytes, 8, end);
        let ghost rest = bytes@.subrange(8, n as int);
        assert(bytes@.subrange(8, end as int) =~= rest.subrange(0, index_of(rest, 35) as int));
        let ghost ps = query_pairs(bytes@.subrange(8, end as int));
        let mut cid_value: Option<Vec<u8>> = None;
        let mut xt_value: Option<Vec<u8>> = None;
        let mut dn_value: Option<Vec<u8>> = None;
        let mut ws: Vec<Url> = Vec::new();
        let mut cdn: Vec<Url> = Vec::new();
        let mut i: usize = 0;
        let total = pairs.len();
        while i < total
            invariant
                total == pairs@.len(),
                pairs_view(pairs@) == ps,
                i <= total,
                ({
                    let pre = ps.subrange(0, i as int);
                    &&& (cid_value is None <==> param_values(pre, ParamKey::Cid).len() == 0)
                    &&& (cid_value is Some ==> cid_value->Some_0@ == param_values(
                        pre,
                        ParamKey::Cid,
                    )[0])
                    &&& (xt_value is None <==> param_values(pre, ParamKey::Xt).len() == 0)
                    &&& (xt_value is Some ==> xt_value->Some_0@ == param_values(
                        pre,
                        ParamKey::Xt,
                    )[0])
                    &&& (dn_value is None <==> param_values(pre, ParamKey::Dn).len() == 0)
                    &&& (dn_value is Some ==> dn_value->Some_0@ == param_values(
                        pre,
                        ParamKey::Dn,
                    )[0])
                    &&& urls_view(ws@) == url_list(param_values(pre, ParamKey::Ws))
                    &&& urls_view(cdn@) == url_list(param_values(pre, ParamKey::Cdn))
                }),
            decreases total - i,
        {
            let ghost pre = ps.subrange(0, i as int);
            let ghost post = ps.subrange(0, i + 1);
            proof {
                assert(post.drop_last() =~= pre);
                assert(post.last() == ps[i as int]);
                assert(ps[i as int] == (pairs@[i as int].0@, pairs@[i as int].1@));
            }
            let key = key_of_exec(&pairs[i].0);
            let value = pairs[i].1.clone();
            let ghost ws_before = ws@;
            let ghost cdn_before = cdn@;
            match key {
                ParamKey::Cid => {
                    if cid_value.is_none() {
                        cid_value = Some(value);
                    }
                },
                ParamKey::Xt => {
                    if xt_value.is_none() {
                        xt_value = Some(value);
                    }
                },
                ParamKey::Dn => {
                    if dn_value.is_none() {
                        dn_value = Some(value);
                    }
                },
                ParamKey::Ws => {
                    match url_of_value(value) {
                        Some(u) => ws.push(u),
                        None => {},
                    }
                },
                ParamKey::Cdn => {
                    match url_of_value(value) {
                        Some(u) => cdn.push(u),
                        None => {},
                    }
                },
                ParamKey::Other => {},
            }
            proof {
                assert(param_values(post, ParamKey::Ws) == param_values(pre, ParamKey::Ws) + if key
                    == ParamKey::Ws {
                    seq![ps[i as int].1]
                } else {
                    seq![]
                });
                assert(param_values(post, ParamKey::Cdn) == param_values(pre, ParamKey::Cdn) + if key
                    == ParamKey::Cdn {
                    seq![ps[i as int].1]
                } else {
                    seq![]
                });
                if key == ParamKey::Ws {
                    let pv = param_values(post, ParamKey::Ws);
                    assert(pv.drop_last() =~= param_values(pre, ParamKey::Ws));
                    assert(urls_view(ws@) =~= urls_view(ws_before) + (urls_view(ws@).subrange(
                        ws_before.len() as int,
                        ws@.len() as int,
                    )));
                } else {
                    assert(param_values(post, ParamKey::Ws) =~= param_values(pre, ParamKey::Ws));
                    assert(ws@ == ws_before);
                }
                if key == ParamKey::Cdn {
                    let pv = param_values(post, ParamKey::Cdn);
                    assert(pv.drop_last() =~= param_values(pre, ParamKey::Cdn));
                    assert(urls_view(cdn@) =~= urls_view(cdn_before) + (urls_view(
                        cdn@,
                    ).subrange(cdn_before.len() as int, cdn@.len() as int)));
                } else {
                    assert(param_values(post, ParamKey::Cdn) =~= param_values(pre, ParamKey::Cdn));
                    assert(cdn@ == cdn_before);
                }
                assert(param_values(post, ParamKey::Cid) == param_values(pre, ParamKey::Cid) + if key
                    == ParamKey::Cid {
                    seq![ps[i as int].1]
                } else {
                    seq![]
                });
                assert(param_values(post, ParamKey::Xt) == param_values(pre, ParamKey::Xt) + if key
                    == ParamKey::Xt {
                    seq![ps[i as int].1]
                } else {
                    seq![]
                });
                assert(param_values(post, ParamKey::Dn) == param_values(pre, ParamKey::Dn) + if key
                    == ParamKey::Dn {
                    seq![ps[i as int].1]
                } else {
                    seq![]
                });
            }
            i = i + 1;
        }
        assert(ps.subrange(0, total as int) =~= ps);
        assert(magnet_query(text@) == Some(bytes@.subrange(8, end as int)));
        let cid_bytes = match cid_value {
            None => {
                proof {
                    assert forall|m: MagnetView| is_link_valid(m) implies text@
                        != #[trigger] magnet_text(m) by {
                        lemma_magnet_text_parses(m);
                    }
                }
                return Err(Error::MissingCid);
            },
            Some(v) => v,
        };
        let ghost cid_raw = cid_bytes@;
        let cid = match utf8_string(cid_bytes) {
            None => {
                proof {
                    assert forall|m: MagnetView| is_link_valid(m) implies text@
                        != #[trigger] magnet_text(m) by {
                        lemma_magnet_text_parses(m);
                        if text@ == magnet_text(m) {
                            assert(cid_raw == encode_utf8(cid_text(m.cid)));
                        }
                    }
                }
                return Err(Error::InvalidCid(CidErrorKind::BadBase32));
            },
            Some(t) => {
                let parsed = Cid::parse(t.as_str());
                proof {
                    assert forall|m: MagnetView| is_link_valid(m) && text@ == #[trigger] magnet_text(
                        m,
                    ) implies parsed is Ok && parsed->Ok_0.0@ == m.cid by {
                        lemma_magnet_text_parses(m);
                        assert(cid_raw == encode_utf8(cid_text(m.cid)));
                        assert(t@ == cid_text(m.cid));
                    }
                }
                match parsed {
                    Ok(c) => c,
                    Err(e) => {
                        return Err(Error::InvalidCid(e.kind));
                    },
                }
            },
        };
        let xt = match xt_value {
            None => None,
            Some(v) => utf8_string(v),
        };
        let dn = match dn_value {
            None => None,
            Some(v) => utf8_string(v),
        };
        let r = MagnetLink { cid, ws, cdn, xt, dn };
        proof {
            assert forall|m: MagnetView| is_link_valid(m) && text@ == #[trigger] magnet_text(
                m,
            ) implies r.view() == m by {
                lemma_magnet_text_parses(m);
            }
        }
        Ok(r)
    }

    /// The `magnet:?` text of this link.
    pub fn to_string(&self) -> (r: String)
        ensures
            r@ == magnet_text(self.view()),
            cid_text(self.cid.0@).len() == 59,
    {
        let ghost m = self.view();
        let mut out = String::from_str("magnet:?cid=");
        let cid_string = self.cid.to_string();
        push_form_encoded(&mut out, cid_string.as_str().as_bytes());
        let ghost mut ps: Seq<(ParamKey, Seq<u8>)> = seq![
            (ParamKey::Cid, encode_utf8(cid_text(m.cid))),
        ];
        proof {
            reveal_strlit("magnet:?cid=");
            assert(out@ =~= ascii_text(magnet_prefix() + query_text(ps)));
        }
        match &self.xt {
            Some(x) => {
                push_pair(&mut out, ParamKey::Xt, x.as_str(), Ghost(magnet_prefix()), Ghost(ps));
                proof {
                    ps = ps.push((ParamKey::Xt, encode_utf8(x@)));
                }
            },
            None => {},
        }
        assert(ps =~= seq![(ParamKey::Cid, encode_utf8(cid_text(m.cid)))] + opt_pair(
            ParamKey::Xt,
            m.xt,
        ));
        match &self.dn {
            Some(x) => {
                push_pair(&mut out, ParamKey::Dn, x.as_str(), Ghost(magnet_prefix()), Ghost(ps));
                proof {
                    ps = ps.push((ParamKey::Dn, encode_utf8(x@)));
                }
            },
            None => {},
        }
        let ghost base = ps;
        assert(base =~= seq![(ParamKey::Cid, encode_utf8(cid_text(m.cid)))] + opt_pair(
            ParamKey::Xt,
            m.xt,
        ) + opt_pair(ParamKey::Dn, m.dn));
        let mut i: usize = 0;
        while i < self.cdn.len()
            invariant
                i <= self.cdn@.len(),
                m == self.view(),
                ps.len() >= 1,
                ps == base + url_pairs(ParamKey::Cdn, m.cdn.subrange(0, i as int)),
                out@ == ascii_text(magnet_prefix() + query_text(ps)),
            decreases self.cdn@.len() - i,
        {
            push_pair(&mut out, ParamKey::Cdn, self.cdn[i].as_str(), Ghost(magnet_prefix()), Ghost(ps));
            proof {
                ps = ps.push((ParamKey::Cdn, encode_utf8(self.cdn@[i as int]@)));
                assert(url_pairs(ParamKey::Cdn, m.cdn.subrange(0, i + 1)) =~= url_pairs(
                    ParamKey::Cdn,
                    m.cdn.subrange(0, i as int),
                ).push((ParamKey::Cdn, encode_utf8(self.cdn@[i as int]@))));
            }
            i = i + 1;
        }
        assert(m.cdn.subrange(0, self.cdn@.len() as int) =~= m.cdn);
        let ghost base2 = ps;
        let mut j: usize = 0;
        while j < self.ws.len()
            invariant
                j <= self.ws@.len(),
                m == self.view(),
                ps.len() >= 1,
                ps == base2 + url_pairs(ParamKey::Ws, m.ws.subrange(0, j as int)),
                out@ == ascii_text(magnet_prefix() + query_text(ps)),
            decreases self.ws@.len() - j,
        {
            push_pair(&mut out, ParamKey::Ws, self.ws[j].as_str(), Ghost(magnet_prefix()), Ghost(ps));
            proof {
                ps = ps.push((ParamKey::Ws, encode_utf8(self.ws@[j as int]@)));
                assert(url_pairs(ParamKey::Ws, m.ws.subrange(0, j + 1)) =~= url_pairs(
                    ParamKey::Ws,
                    m.ws.subrange(0, j as int),
                ).push((ParamKey::Ws, encode_utf8(self.ws@[j as int]@))));
            }
            j = j + 1;
        }
        assert(m.ws.subrange(0, self.ws@.len() as int) =~= m.ws);
        assert(ps =~= magnet_pairs(m));
        out
    }

    /// Whether two links are equal field by field, list order included.
    pub fn same_as(&self, other: &MagnetLink) -> (r: bool)
        ensures
            r == (self.view() == other.view()),
    {
        if !self.cid.same_as(&other.cid) {
            return false;
        }
        if !same_urls(&self.ws, &other.ws) || !same_urls(&self.cdn, &other.cdn) {
            return false;
        }
        if !same_text(&self.xt, &other.xt) || !same_text(&self.dn, &other.dn) {
            return false;
        }
        true
    }

    /// The candidate URLs of this link: each `cdn` base joined with the CID
    /// text, then each `ws` entry, in order; bases that cannot be joined are dropped.
    pub fn urls(&self) -> (r: Vec<Url>)
        ensures
            urls_view(r@) == candidates(self.view()),
    {
        let ghost m = self.view();
        let cid_string = self.cid.to_string();
        let mut out: Vec<Url> = Vec::new();
        let mut i: usize = 0;
        while i < self.cdn.len()
            invariant
                i <= self.cdn@.len(),
                m == self.view(),
                cid_string@ == cid_text(m.cid),
                urls_view(out@) == joined(m.cdn.subrange(0, i as int), cid_string@),
            decreases self.cdn@.len() - i,
        {
            let ghost before = out@;
            match self.cdn[i].join(cid_string.as_str()) {
                Ok(u) => out.push(u),
                Err(_) => {},
            }
            proof {
                let sub = m.cdn.subrange(0, i + 1);
                assert(sub.drop_last() =~= m.cdn.subrange(0, i as int));
                assert(urls_view(out@) =~= urls_view(before) + urls_view(out@).subrange(
                    before.len() as int,
                    out@.len() as int,
                ));
            }
            i = i + 1;
        }
        assert(m.cdn.subrange(0, self.cdn@.len() as int) =~= m.cdn);
        let ghost first = out@;
        let mut j: usize = 0;
        while j < self.ws.len()
            invariant
                j <= self.ws@.len(),
                m == self.view(),
                out@.len() == first.len() + j,
                urls_view(out@) == urls_view(first) + m.ws.subrange(0, j as int),
            decreases self.ws@.len() - j,
        {
            let ghost before = out@;
            let u = self.ws[j].duplicate();
            out.push(u);
            assert(urls_view(out@) =~= urls_view(before).push(u@));
            assert(m.ws[j as int] == self.ws@[j as int]@);
            assert(m.ws.subrange(0, j + 1) =~= m.ws.subrange(0, j as int).push(u@));
            assert(urls_view(out@) =~= urls_view(first) + m.ws.subrange(0, j + 1));
            j = j + 1;
        }
        assert(m.ws.subrange(0, self.ws@.len() as int) =~= m.ws);
        out
    }
}

fn same_urls(a: &Vec<Url>, b: &Vec<Url>) -> (r: bool)
    ensures
        r == (urls_view(a@) == urls_view(b@)),
{
    if a.len() != b.len() {
        return false;
    }
    let mut i: usize = 0;
    while i < a.len()
        invariant
            a@.len() == b@.len(),
            i <= a@.len(),
            forall|j: int| 0 <= j < i ==> a@[j]@ == b@[j]@,
        decreases a@.len() - i,
    {
        if a[i] != b[i] {
            assert(urls_view(a@)[i as int] != urls_view(b@)[i as int]);
            return false;
        }
        i = i + 1;
    }
    assert(urls_view(a@) =~= urls_view(b@));
    true
}

fn same_text(a: &Option<String>, b: &Option<String>) -> (r: bool)
    ensures
        r == (opt_view(*a) == opt_view(*b)),
{
    match a {
        Some(x) => match b {
            Some(y) => x.eq(y),
            None => false,
        },
        None => b.is_none(),
    }
}

/// Appends `&name=value` to a link text, the value form-urlencoded.
fn push_pair(
    out: &mut String,
    key: ParamKey,
    value: &str,
    Ghost(prefix): Ghost<Seq<u8>>,
    Ghost(ps): Ghost<Seq<(ParamKey, Seq<u8>)>>,
)
    requires
        ps.len() >= 1,
        old(out)@ == ascii_text(prefix + query_text(ps)),
        key != ParamKey::Other,
    ensures
        final(out)@ == ascii_text(prefix + query_text(ps.push((key, encode_utf8(value@))))),
{
    let ghost start = out@;
    push_char(out, '&');
    match key {
        ParamKey::Cid => {
            push_char(out, 'c');
            push_char(out, 'i');
            push_char(out, 'd');
        },
        ParamKey::Ws => {
            push_char(out, 'w');
            push_char(out, 's');
        },
        ParamKey::Cdn => {
            push_char(out, 'c');
            push_char(out, 'd');
            push_char(out, 'n');
        },
        ParamKey::Xt => {
            push_char(out, 'x');
            push_char(out, 't');
        },
        _ => {
            push_char(out, 'd');
            push_char(out, 'n');
        },
    }
    push_char(out, '=');
    let ghost mid = out@;
    push_form_encoded(out, value.as_bytes());
    proof {
        let p = (key, encode_utf8(value@));
        let ps2 = ps.push(p);
        assert(ps2.drop_last() =~= ps);
        assert(query_text(ps2) == query_text(ps) + seq![38u8] + pair_bytes(p));
        assert(mid =~= start + ascii_text(seq![38u8] + key_bytes(key) + seq![61u8]));
        assert(ascii_text(prefix + query_text(ps2)) =~= ascii_text(prefix + query_text(ps))
            + ascii_text(seq![38u8] + key_bytes(key) + seq![61u8]) + ascii_text(form_encode(
            encode_utf8(value@),
        )));
    }
}

} // verus!
