//! Small helpers: grouping pairs by key, bounded writes, and URL lists as lines.
use vstd::prelude::*;
use vstd::std_specs::hash::obeys_key_model;
use std::collections::HashMap;
use crate::random::shuffle;
use crate::url::Url;

verus! {

broadcast use vstd::std_specs::hash::group_hash_axioms, vstd::seq_lib::group_seq_properties;

/// The values of each key, in the order they appear.
pub open spec fn grouped<K, V>(pairs: Seq<(K, V)>) -> Map<K, Seq<V>>
    decreases pairs.len(),
{
    if pairs.len() == 0 {
        Map::empty()
    } else {
        let m = grouped(pairs.drop_last());
        let (k, v) = pairs.last();
        m.insert(
            k,
            if m.contains_key(k) {
                m[k].push(v)
            } else {
                seq![v]
            },
        )
    }
}

/// Groups a list of key-value pairs into a map from each key to its values, in order.
pub fn group<K: Eq + std::hash::Hash, V>(pairs: Vec<(K, V)>) -> (r: HashMap<K, Vec<V>>)
    ensures
        obeys_key_model::<K>() ==> {
            &&& r@.dom() == grouped(pairs@).dom()
            &&& forall|k: K| #[trigger] r@.contains_key(k) ==> r@[k]@ == grouped(pairs@)[k]
        },
{
    let ghost all = pairs@;
    let mut rest = pairs;
    let mut out: HashMap<K, Vec<V>> = HashMap::new();
    let mut i: usize = 0;
    let n = rest.len();
    while rest.len() > 0
        invariant
            n == all.len(),
            i + rest@.len() == n,
            rest@ == all.subrange(i as int, n as int),
            obeys_key_model::<K>() ==> {
                &&& out@.dom() == grouped(all.subrange(0, i as int)).dom()
                &&& forall|k: K| #[trigger] out@.contains_key(k) ==> out@[k]@ == grouped(
                    all.subrange(0, i as int),
                )[k]
            },
        decreases rest@.len(),
    {
        let (k, v) = rest.remove(0);
        let ghost pre = all.subrange(0, i as int);
        let ghost post = all.subrange(0, i + 1);
        proof {
            assert(post.drop_last() =~= pre);
            assert(post.last() == all[i as int]);
            assert(all[i as int] == (k, v));
        }
        let existing = out.remove(&k);
        let mut values = match existing {
            Some(vs) => vs,
            None => Vec::new(),
        };
        let ghost before = values@;
        values.push(v);
        out.insert(k, values);
        proof {
            if obeys_key_model::<K>() {
                let g = grouped(pre);
                assert(grouped(post) == g.insert(
                    k,
                    if g.contains_key(k) {
                        g[k].push(v)
                    } else {
                        seq![v]
                    },
                ));
                assert(out@.dom() =~= grouped(post).dom());
                assert forall|key: K| #[trigger] out@.contains_key(key) implies out@[key]@ == grouped(
                    post,
                )[key] by {
                    if key == k {
                        if g.contains_key(k) {
                            assert(before == g[k]);
                        } else {
                            assert(before =~= Seq::<V>::empty());
                        }
                    }
                }
            }
        }
        i = i + 1;
        assert(rest@ =~= all.subrange(i as int, n as int));
    }
    assert(all.subrange(0, i as int) =~= all);
    out
}

/// Data refused because it is larger than the limit.
#[derive(Debug, Clone, Copy, PartialEq, Eq, Structural)]
pub struct TooLarge {
    pub max_bytes: usize,
}

/// Appends `data` to `writer` if it is at most `max_bytes` long; otherwise writes nothing.
pub fn write_if_small(writer: &mut Vec<u8>, data: &[u8], max_bytes: usize) -> (r: Result<(), TooLarge>)
    ensures
        data@.len() <= max_bytes ==> r is Ok && final(writer)@ == old(writer)@ + data@,
        data@.len() > max_bytes ==> r == Err::<(), TooLarge>(TooLarge { max_bytes })
            && final(writer)@ == old(writer)@,
{
    if data.len() > max_bytes {
        return Err(TooLarge { max_bytes });
    }
    let ghost start = writer@;
    let mut i: usize = 0;
    while i < data.len()
        invariant
            i <= data@.len(),
            writer@ == start + data@.subrange(0, i as int),
        decreases data@.len() - i,
    {
        writer.push(data[i]);
        i = i + 1;
        assert(writer@ =~= start + data@.subrange(0, i as int));
    }
    assert(data@.subrange(0, data@.len() as int) =~= data@);
    Ok(())
}

/// The UTF-8 bytes of URL serializations, each followed by a newline.
pub open spec fn url_lines(urls: Seq<Seq<char>>) -> Seq<u8>
    decreases urls.len(),
{
    if urls.len() == 0 {
        seq![]
    } else {
        url_lines(urls.drop_last()) + vstd::utf8::encode_utf8(urls.last()) + seq![10u8]
    }
}

/// A line of a URL list that could not be read.
#[derive(Debug, Clone, Copy, PartialEq, Eq, Structural)]
pub enum UrlLinesError {
    /// The line is not an absolute URL.
    UrlError,
}

/// Writes URLs one per line.
pub fn write_urls_to_lines(peers: &[Url], writer: &mut Vec<u8>) -> (r: Result<(), UrlLinesError>)
    ensures
        r is Ok,
        final(writer)@ == old(writer)@ + url_lines(peers@.map_values(|u: Url| u@)),
{
    let ghost start = writer@;
    let ghost views = peers@.map_values(|u: Url| u@);
    let mut i: usize = 0;
    while i < peers.len()
        invariant
            i <= peers@.len(),
            views == peers@.map_values(|u: Url| u@),
            writer@ == start + url_lines(views.subrange(0, i as int)),
        decreases peers@.len() - i,
    {
        let bytes = peers[i].as_str().as_bytes();
        let ghost before = writer@;
        let mut j: usize = 0;
        while j < bytes.len()
            invariant
                j <= bytes@.len(),
                writer@ == before + bytes@.subrange(0, j as int),
            decreases bytes@.len() - j,
        {
            writer.push(bytes[j]);
            j = j + 1;
            assert(writer@ =~= before + bytes@.subrange(0, j as int));
        }
        writer.push(10);
        proof {
            let sub = views.subrange(0, i + 1);
            assert(sub.drop_last() =~= views.subrange(0, i as int));
            assert(sub.last() == peers@[i as int]@);
            assert(bytes@.subrange(0, bytes@.len() as int) =~= bytes@);
            assert(writer@ =~= start + url_lines(sub));
        }
        i = i + 1;
    }
    assert(views.subrange(0, peers@.len() as int) =~= views);
    Ok(())
}

/// Up to `max` of the items, chosen at random; all of them when there are no more than `max`.
pub fn random_choice<T>(items: Vec<T>, max: usize) -> (r: Vec<T>)
    ensures
        r@.len() == if items@.len() < max {
            items@.len()
        } else {
            max as nat
        },
        forall|x: T| r@.contains(x) ==> items@.contains(x),
        r@.to_multiset().subset_of(items@.to_multiset()),
{
    let mut items = items;
    let ghost given = items@;
    shuffle(&mut items);
    let ghost shuffled = items@;
    items.truncate(max);
    proof {
        assert forall|x: T| items@.contains(x) implies given.contains(x) by {
            let i = choose|i: int| 0 <= i < items@.len() && items@[i] == x;
            shuffled.to_multiset_ensures();
            given.to_multiset_ensures();
            assert(shuffled[i] == x);
            assert(shuffled.contains(x));
            assert(shuffled.to_multiset().count(x) > 0);
            assert(given.to_multiset().count(x) > 0);
        }
        shuffled.to_multiset_ensures();
        given.to_multiset_ensures();
        let k = items@.len() as int;
        assert(shuffled =~= items@ + shuffled.subrange(k, shuffled.len() as int));
        vstd::seq_lib::lemma_multiset_commutative(items@, shuffled.subrange(k, shuffled.len() as int));
        assert(items@.to_multiset().subset_of(shuffled.to_multiset()));
    }
    items
}

} // verus!
