//! Fuzzy alias search over the in-memory node index: case-insensitive
//! closeness by a prefix-weighted edit-distance metric, with a substring
//! clause for composite aliases, results sorted closest first.

use crate::kv::{assoc_find, assoc_has, kv_get, kv_view};
use crate::lightning::{ClnLightningInfo, LightningError, Node, NodeV};
use vstd::prelude::*;

verus! {

/// What `str::to_lowercase` returns for the given characters.
pub uninterp spec fn lower_of(s: Seq<char>) -> Seq<char>;

/// Relies on str::to_lowercase: its result depends on the characters
/// alone, and is itself lowercase — lowercasing it again returns it
/// unchanged, as the Unicode lowercase mappings produce only characters
/// that lowercase to themselves.
#[verifier::external_body]
fn to_lower_chars(s: &str) -> (r: Vec<char>)
    ensures
        r@ == lower_of(s@),
        lower_of(r@) == r@,
{
    s.to_lowercase().chars().collect()
}

/// The bit pattern of the Jaro-Winkler distance between two character
/// sequences, a 64-bit float in [0, 1]. For such nonnegative floats the
/// unsigned order of the bit patterns is the numeric order of the
/// distances, so comparing patterns compares distances.
pub uninterp spec fn jw_distance_bits(a: Seq<char>, b: Seq<char>) -> u64;

/// Relies on rapidfuzz's jaro_winkler::distance: a pure function of the
/// two character sequences, returned here as its IEEE-754 bit pattern.
#[verifier::external_body]
fn jw_distance_bits_exec(query: &Vec<char>, candidate: &Vec<char>) -> (r: u64)
    ensures
        r == jw_distance_bits(query@, candidate@),
{
    rapidfuzz::distance::jaro_winkler::distance(query.iter().copied(), candidate.iter().copied())
        .to_bits()
}

/// Bit pattern of the largest accepted distance, one tenth as a 64-bit
/// float: a candidate at most this far from the query qualifies by
/// closeness alone.
pub const MAX_DISTANCE_BITS: u64 = 0x3FB9_9999_9999_999A;

/// `needle` occurs contiguously in `hay`.
pub open spec fn spec_has_substring(hay: Seq<char>, needle: Seq<char>) -> bool {
    exists|i: int|
        0 <= i <= hay.len() - needle.len() && #[trigger] hay.subrange(i, i + needle.len())
            == needle
}

fn has_substring(hay: &Vec<char>, needle: &Vec<char>) -> (r: bool)
    ensures
        r == spec_has_substring(hay@, needle@),
{
    if needle.len() > hay.len() {
        return false;
    }
    if needle.len() == 0 {
        proof {
            let ghost z: int = 0;
            assert(hay@.subrange(z, z + needle@.len()) =~= needle@);
        }
        return true;
    }
    let bound = hay.len() - needle.len();
    let mut i: usize = 0;
    let mut found = false;
    while i <= bound && !found
        invariant
            1 <= needle@.len() <= hay@.len() <= usize::MAX,
            bound == hay@.len() - needle@.len(),
            0 <= i <= bound + 1,
            !found ==> forall|p: int|
                0 <= p < i ==> #[trigger] hay@.subrange(p, p + needle@.len()) != needle@,
            found ==> spec_has_substring(hay@, needle@),
        decreases (bound + 2 - i) - (if found { 1int } else { 0 }),
    {
        let mut j: usize = 0;
        let mut ok = true;
        while j < needle.len() && ok
            invariant
                i + needle@.len() <= hay@.len() <= usize::MAX,
                0 <= j <= needle@.len(),
                ok ==> hay@.subrange(i as int, i + j) == needle@.take(j as int),
                !ok ==> hay@.subrange(i as int, i + needle@.len()) != needle@,
            decreases (needle@.len() + 1 - j) - (if ok { 0int } else { 1 }),
        {
            if hay[i + j] == needle[j] {
                proof {
                    assert(hay@.subrange(i as int, i + j + 1) =~= hay@.subrange(
                        i as int,
                        i + j,
                    ).push(hay@[i + j]));
                    assert(needle@.take(j + 1) =~= needle@.take(j as int).push(needle@[j as int]));
                }
                j += 1;
            } else {
                proof {
                    if hay@.subrange(i as int, i + needle@.len()) == needle@ {
                        assert(hay@.subrange(i as int, i + needle@.len())[j as int] == hay@[i
                            + j]);
                        assert(false);
                    }
                }
                ok = false;
            }
        }
        if ok {
            proof {
                assert(needle@.take(needle@.len() as int) =~= needle@);
                assert(hay@.subrange(i as int, i + needle@.len()) == needle@);
            }
            found = true;
        } else {
            i += 1;
        }
    }
    proof {
        if !found {
            assert forall|p: int| 0 <= p <= hay@.len() - needle@.len() implies #[trigger] hay@.subrange(
                p,
                p + needle@.len(),
            ) != needle@ by {
                assert(p < i);
            }
        }
    }
    found
}

/// The distance of a candidate node from the lowercased query: the
/// Jaro-Winkler distance of the lowercased alias, as its bit pattern.
pub open spec fn spec_node_distance(lq: Seq<char>, n: NodeV) -> u64 {
    jw_distance_bits(lq, lower_of(n.alias->0))
}

/// Whether a node qualifies for the query: it has an alias, and the
/// lowercased alias is close enough or contains the lowercased query.
pub open spec fn spec_accepts(lq: Seq<char>, n: NodeV) -> bool {
    n.alias is Some && (spec_node_distance(lq, n) <= MAX_DISTANCE_BITS || spec_has_substring(
        lower_of(n.alias->0),
        lq,
    ))
}

/// The qualifying nodes of an index, in index order.
pub open spec fn spec_matches(entries: Seq<(Seq<char>, NodeV)>, lq: Seq<char>) -> Seq<NodeV>
    decreases entries.len(),
{
    if entries.len() == 0 {
        Seq::empty()
    } else {
        let rest = spec_matches(entries.drop_last(), lq);
        if spec_accepts(lq, entries.last().1) {
            rest.push(entries.last().1)
        } else {
            rest
        }
    }
}

pub open spec fn node_views(s: Seq<Node>) -> Seq<NodeV> {
    s.map_values(|n: Node| n@)
}

spec fn scored_nodes(s: Seq<(u64, Node)>) -> Seq<NodeV> {
    s.map_values(|p: (u64, Node)| p.1@)
}

spec fn scored_ok(lq: Seq<char>, p: (u64, Node)) -> bool {
    p.0 == spec_node_distance(lq, p.1@) && p.1@.alias is Some
}

/// Pair sequences with equal multisets map to node sequences with equal
/// multisets.
proof fn lemma_scored_nodes_multiset(s1: Seq<(u64, Node)>, s2: Seq<(u64, Node)>)
    requires
        s1.to_multiset() == s2.to_multiset(),
    ensures
        scored_nodes(s1).to_multiset() == scored_nodes(s2).to_multiset(),
    decreases s1.len(),
{
    broadcast use vstd::seq_lib::group_to_multiset_ensures;

    if s1.len() == 0 {
        assert(s2.to_multiset().len() == 0);
        assert(s2.len() == 0);
        assert(scored_nodes(s1) =~= scored_nodes(s2));
    } else {
        let x = s1.last();
        let s1p = s1.drop_last();
        assert(s1p =~= s1.remove(s1.len() - 1));
        assert(s1p.to_multiset() == s1.to_multiset().remove(x));
        assert(s1.contains(x));
        assert(s2.to_multiset().count(x) > 0);
        assert(s2.contains(x));
        let j = choose|j: int| 0 <= j < s2.len() && s2[j] == x;
        let s2p = s2.remove(j);
        assert(s2p.to_multiset() == s2.to_multiset().remove(x));
        lemma_scored_nodes_multiset(s1p, s2p);
        assert(scored_nodes(s1) =~= scored_nodes(s1p).push(x.1@));
        assert(scored_nodes(s1p).push(x.1@).to_multiset() == scored_nodes(
            s1p,
        ).to_multiset().insert(x.1@));
        assert(scored_nodes(s2p) =~= scored_nodes(s2).remove(j));
        assert(scored_nodes(s2).remove(j).to_multiset() == scored_nodes(
            s2,
        ).to_multiset().remove(scored_nodes(s2)[j]));
        assert(scored_nodes(s2)[j] == x.1@);
        assert(scored_nodes(s2).contains(scored_nodes(s2)[j]));
        assert(scored_nodes(s2).to_multiset().count(x.1@) > 0);
        assert(scored_nodes(s2).to_multiset() =~= scored_nodes(s2p).to_multiset().insert(
            x.1@,
        ));
        assert(scored_nodes(s1).to_multiset() =~= scored_nodes(s2).to_multiset());
    }
}

/// The search is case-insensitive in content: two queries whose
/// lowercased forms agree match exactly the same nodes, at the same
/// distances, whatever their casing.
pub proof fn lemma_search_case_insensitive(
    entries: Seq<(Seq<char>, NodeV)>,
    a: Seq<char>,
    b: Seq<char>,
)
    requires
        lower_of(a) == lower_of(b),
    ensures
        spec_matches(entries, lower_of(a)) == spec_matches(entries, lower_of(b)),
{
}

/// Sorts scored candidates ascending by their distance bits; the content
/// is kept exactly.
fn sort_scored(v: Vec<(u64, Node)>) -> (r: Vec<(u64, Node)>)
    ensures
        r@.len() == v@.len(),
        r@.to_multiset() == v@.to_multiset(),
        forall|a: int, b: int| 0 <= a < b < r@.len() ==> r@[a].0 <= r@[b].0,
{
    let mut input = v;
    let mut out: Vec<(u64, Node)> = Vec::new();
    proof {
        broadcast use vstd::seq_lib::group_to_multiset_ensures;

        assert(out@.to_multiset().add(input@.to_multiset()) =~= v@.to_multiset());
    }
    while input.len() > 0
        invariant
            out@.to_multiset().add(input@.to_multiset()) == v@.to_multiset(),
            out@.len() + input@.len() == v@.len(),
            forall|a: int, b: int| 0 <= a < b < out@.len() ==> out@[a].0 <= out@[b].0,
            forall|a: int, j: int|
                0 <= a < out@.len() && 0 <= j < input@.len() ==> out@[a].0 <= input@[j].0,
        decreases input@.len(),
    {
        let mut mi: usize = 0;
        let mut t: usize = 1;
        while t < input.len()
            invariant
                input@.len() > 0,
                0 <= mi < t <= input@.len(),
                forall|j: int| 0 <= j < t ==> input@[mi as int].0 <= input@[j].0,
            decreases input@.len() - t,
        {
            if input[t].0 < input[mi].0 {
                mi = t;
            }
            t += 1;
        }
        let ghost pre_in = input@;
        let ghost pre_out = out@;
        let x = input.remove(mi);
        out.push(x);
        proof {
            broadcast use vstd::seq_lib::group_to_multiset_ensures;

            assert(x == pre_in[mi as int]);
            assert(input@.to_multiset() == pre_in.to_multiset().remove(x));
            assert(out@.to_multiset() == pre_out.to_multiset().insert(x));
            assert(out@.to_multiset().add(input@.to_multiset()) =~= v@.to_multiset());
            assert forall|a: int, j: int|
                0 <= a < out@.len() && 0 <= j < input@.len() implies out@[a].0
                <= input@[j].0 by {
                if a < pre_out.len() {
                    if j < mi {
                        assert(input@[j] == pre_in[j]);
                    } else {
                        assert(input@[j] == pre_in[j + 1]);
                    }
                } else {
                    assert(out@[a] == x);
                    if j < mi {
                        assert(input@[j] == pre_in[j]);
                    } else {
                        assert(input@[j] == pre_in[j + 1]);
                    }
                }
            }
        }
    }
    proof {
        broadcast use vstd::seq_lib::group_to_multiset_ensures;

        assert(input@.to_multiset().len() == 0);
        assert(out@.to_multiset().add(input@.to_multiset()) =~= out@.to_multiset());
    }
    out
}

impl ClnLightningInfo {
    /// Fuzzy alias search over the currently installed in-memory node
    /// index for the symbol. Fails with `NoNodes` when no refresh has
    /// installed an index for the symbol yet — distinct from an empty
    /// result, which is a successful search that found nothing. The result
    /// holds exactly the qualifying aliased nodes, sorted ascending by
    /// distance; ties carry no defined order.
    pub fn find_node_by_alias(&self, symbol: &str, alias: &str) -> (r: Result<
        Vec<Node>,
        LightningError,
    >)
        ensures
            lower_of(lower_of(alias@)) == lower_of(alias@),
            !assoc_has(kv_view(self.index@), symbol@) ==> r is Err && (r->Err_0 matches
                LightningError::NoNodes { symbol: s } && s@ == symbol@),
            assoc_has(kv_view(self.index@), symbol@) ==> r is Ok && ({
                let entries = assoc_find(kv_view(self.index@), symbol@)->0;
                let lq = lower_of(alias@);
                let ms = spec_matches(entries, lq);
                let out = r->Ok_0;
                &&& out@.len() == ms.len()
                &&& node_views(out@).to_multiset() == ms.to_multiset()
                &&& forall|a: int, b: int|
                    0 <= a < b < out@.len() ==> spec_node_distance(lq, out@[a]@)
                        <= spec_node_distance(lq, out@[b]@)
            }),
    {
        let lowered = to_lower_chars(alias);
        let owned_symbol = symbol.to_owned();
        let found = kv_get(&self.index, &owned_symbol);
        match found {
            None => Err(LightningError::NoNodes { symbol: symbol.to_owned() }),
            Some(idx) => {
                let ghost entries = kv_view(idx.entries@);
                let ghost lq = lower_of(alias@);
                let mut scored: Vec<(u64, Node)> = Vec::new();
                proof {
                    assert(entries.take(0) =~= Seq::<(Seq<char>, NodeV)>::empty());
                }
                let mut t: usize = 0;
                while t < idx.entries.len()
                    invariant
                        t <= idx.entries@.len(),
                        entries == kv_view(idx.entries@),
                        lq == lower_of(alias@),
                        lowered@ == lq,
                        scored_nodes(scored@) == spec_matches(entries.take(t as int), lq),
                        forall|q: int| 0 <= q < scored@.len() ==> scored_ok(lq, scored@[q]),
                    decreases idx.entries@.len() - t,
                {
                    let e = &idx.entries[t];
                    proof {
                        assert(entries[t as int] == (e.0@, e.1@));
                    }
                    match &e.1.alias {
                        Some(a) => {
                            let la = to_lower_chars(a.as_str());
                            let d = jw_distance_bits_exec(&lowered, &la);
                            let keep = d <= MAX_DISTANCE_BITS || has_substring(&la, &lowered);
                            if keep {
                                scored.push((d, e.1.clone()));
                            }
                        },
                        None => {},
                    }
                    proof {
                        assert(entries.take(t + 1).drop_last() =~= entries.take(t as int));
                        assert(entries.take(t + 1).last() == entries[t as int]);
                        assert(scored_nodes(scored@) =~= spec_matches(entries.take(t + 1), lq));
                    }
                    t += 1;
                }
                proof {
                    assert(entries.take(idx.entries@.len() as int) =~= entries);
                }
                let ghost all_scored = scored@;
                let sorted = sort_scored(scored);
                proof {
                    broadcast use vstd::seq_lib::group_to_multiset_ensures;

                    assert forall|q: int| 0 <= q < sorted@.len() implies scored_ok(
                        lq,
                        sorted@[q],
                    ) by {
                        assert(sorted@.contains(sorted@[q]));
                        assert(all_scored.to_multiset().count(sorted@[q]) > 0);
                        assert(all_scored.contains(sorted@[q]));
                        let w = choose|w: int|
                            0 <= w < all_scored.len() && all_scored[w] == sorted@[q];
                        assert(scored_ok(lq, all_scored[w]));
                    }
                }
                let mut out: Vec<Node> = Vec::new();
                let mut u: usize = 0;
                while u < sorted.len()
                    invariant
                        u <= sorted@.len(),
                        out@.len() == u,
                        forall|q: int| 0 <= q < u ==> out@[q]@ == sorted@[q].1@,
                    decreases sorted@.len() - u,
                {
                    out.push(sorted[u].1.clone());
                    u += 1;
                }
                proof {
                    broadcast use vstd::seq_lib::group_to_multiset_ensures;

                    let ms = spec_matches(entries, lq);
                    assert(ms == scored_nodes(all_scored));
                    assert(out@.len() == ms.len());
                    assert(node_views(out@) =~= scored_nodes(sorted@));
                    lemma_scored_nodes_multiset(sorted@, all_scored);
                    assert forall|a: int, b: int|
                        0 <= a < b < out@.len() implies spec_node_distance(lq, out@[a]@)
                        <= spec_node_distance(lq, out@[b]@) by {
                        assert(scored_ok(lq, sorted@[a]));
                        assert(scored_ok(lq, sorted@[b]));
                        assert(sorted@[a].0 <= sorted@[b].0);
                    }
                }
                Ok(out)
            },
        }
    }
}

} // verus!
