//! The lightning gossip cache: per-currency node and channel data listed
//! from a lightning client, persisted as keyed cache entries, and an
//! in-memory node index replaced wholesale by each successful refresh.

use crate::hex::{hex_encode, hex_of};
use crate::kv::{assoc_find, assoc_has, assoc_idx, assoc_set, kv_get, kv_set, kv_view};
use vstd::prelude::*;

verus! {

/// A node of the public channel graph.
#[derive(Debug)]
pub struct Node {
    pub id: String,
    pub alias: Option<String>,
    pub color: Option<String>,
}

pub struct NodeV {
    pub id: Seq<char>,
    pub alias: Option<Seq<char>>,
    pub color: Option<Seq<char>>,
}

pub open spec fn opt_string_view(o: Option<String>) -> Option<Seq<char>> {
    match o {
        Some(s) => Some(s@),
        None => None,
    }
}

impl View for Node {
    type V = NodeV;

    open spec fn view(&self) -> NodeV {
        NodeV {
            id: self.id@,
            alias: opt_string_view(self.alias),
            color: opt_string_view(self.color),
        }
    }
}

fn clone_opt_string(o: &Option<String>) -> (r: Option<String>)
    ensures
        r == *o,
{
    match o {
        Some(s) => Some(s.clone()),
        None => None,
    }
}

impl Clone for Node {
    fn clone(&self) -> (r: Self)
        ensures
            r == *self,
    {
        Node {
            id: self.id.clone(),
            alias: clone_opt_string(&self.alias),
            color: clone_opt_string(&self.color),
        }
    }
}

/// Fee and HTLC parameters of a channel.
#[derive(Debug, Clone, Copy, PartialEq, Eq)]
pub struct ChannelInfo {
    pub base_fee_millisatoshi: u32,
    pub fee_ppm: u32,
    pub delay: u32,
    pub htlc_minimum_millisatoshi: Option<u64>,
    pub htlc_maximum_millisatoshi: Option<u64>,
}

/// A public channel as persisted per destination node.
#[derive(Debug)]
pub struct Channel {
    pub source: Node,
    pub short_channel_id: String,
    pub capacity_sat: Option<u64>,
    pub active: bool,
    pub info: ChannelInfo,
}

pub struct ChannelV {
    pub source: NodeV,
    pub short_channel_id: Seq<char>,
    pub capacity_sat: Option<u64>,
    pub active: bool,
    pub info: ChannelInfo,
}

impl View for Channel {
    type V = ChannelV;

    open spec fn view(&self) -> ChannelV {
        ChannelV {
            source: self.source@,
            short_channel_id: self.short_channel_id@,
            capacity_sat: self.capacity_sat,
            active: self.active,
            info: self.info,
        }
    }
}

impl Clone for Channel {
    fn clone(&self) -> (r: Self)
        ensures
            r@ == self@,
    {
        Channel {
            source: self.source.clone(),
            short_channel_id: self.short_channel_id.clone(),
            capacity_sat: self.capacity_sat,
            active: self.active,
            info: self.info,
        }
    }
}

/// The list of public channels terminating at one destination, as one
/// persisted cache entry.
#[derive(Debug)]
pub struct ChannelList {
    pub channels: Vec<Channel>,
}

pub open spec fn channel_views(s: Seq<Channel>) -> Seq<ChannelV> {
    s.map_values(|c: Channel| c@)
}

impl View for ChannelList {
    type V = Seq<ChannelV>;

    open spec fn view(&self) -> Seq<ChannelV> {
        channel_views(self.channels@)
    }
}

fn clone_channels(v: &Vec<Channel>) -> (r: Vec<Channel>)
    ensures
        channel_views(r@) == channel_views(v@),
{
    let mut r: Vec<Channel> = Vec::new();
    let mut i: usize = 0;
    while i < v.len()
        invariant
            i <= v@.len(),
            r@.len() == i,
            channel_views(r@) == channel_views(v@).take(i as int),
        decreases v@.len() - i,
    {
        r.push(v[i].clone());
        proof {
            assert(channel_views(r@) =~= channel_views(v@).take(i + 1));
        }
        i += 1;
    }
    proof {
        assert(channel_views(v@).take(v@.len() as int) =~= channel_views(v@));
    }
    r
}

/// A node as the lightning client lists it.
#[derive(Debug)]
pub struct ListedNode {
    pub nodeid: Vec<u8>,
    pub alias: Option<String>,
    pub color: Option<Vec<u8>>,
}

pub struct ListedNodeV {
    pub nodeid: Seq<u8>,
    pub alias: Option<Seq<char>>,
    pub color: Option<Seq<u8>>,
}

impl View for ListedNode {
    type V = ListedNodeV;

    open spec fn view(&self) -> ListedNodeV {
        ListedNodeV {
            nodeid: self.nodeid@,
            alias: opt_string_view(self.alias),
            color: match self.color {
                Some(c) => Some(c@),
                None => None,
            },
        }
    }
}

/// A channel as the lightning client lists it.
#[derive(Debug)]
pub struct ListedChannel {
    pub source: Vec<u8>,
    pub destination: Vec<u8>,
    pub short_channel_id: String,
    pub public: bool,
    pub active: bool,
    pub amount_msat: Option<u64>,
    pub base_fee_millisatoshi: u32,
    pub fee_per_millionth: u32,
    pub delay: u32,
    pub htlc_minimum_msat: Option<u64>,
    pub htlc_maximum_msat: Option<u64>,
}

pub struct ListedChannelV {
    pub source: Seq<u8>,
    pub destination: Seq<u8>,
    pub short_channel_id: Seq<char>,
    pub public: bool,
    pub active: bool,
    pub amount_msat: Option<u64>,
    pub base_fee_millisatoshi: u32,
    pub fee_per_millionth: u32,
    pub delay: u32,
    pub htlc_minimum_msat: Option<u64>,
    pub htlc_maximum_msat: Option<u64>,
}

impl View for ListedChannel {
    type V = ListedChannelV;

    open spec fn view(&self) -> ListedChannelV {
        ListedChannelV {
            source: self.source@,
            destination: self.destination@,
            short_channel_id: self.short_channel_id@,
            public: self.public,
            active: self.active,
            amount_msat: self.amount_msat,
            base_fee_millisatoshi: self.base_fee_millisatoshi,
            fee_per_millionth: self.fee_per_millionth,
            delay: self.delay,
            htlc_minimum_msat: self.htlc_minimum_msat,
            htlc_maximum_msat: self.htlc_maximum_msat,
        }
    }
}

/// How a listed channel and its resolved source node become a persisted
/// channel: the source keeps the resolved alias and color under the
/// channel's own source id, and the capacity is the channel amount in
/// whole satoshi.
pub open spec fn spec_channel_of(c: ListedChannelV, source: NodeV) -> ChannelV {
    ChannelV {
        source: NodeV { id: hex_of(c.source), alias: source.alias, color: source.color },
        short_channel_id: c.short_channel_id,
        capacity_sat: match c.amount_msat {
            Some(a) => Some((a / 1000) as u64),
            None => None,
        },
        active: c.active,
        info: ChannelInfo {
            base_fee_millisatoshi: c.base_fee_millisatoshi,
            fee_ppm: c.fee_per_millionth,
            delay: c.delay,
            htlc_minimum_millisatoshi: c.htlc_minimum_msat,
            htlc_maximum_millisatoshi: c.htlc_maximum_msat,
        },
    }
}

/// The errors the gossip cache reports.
#[derive(Debug)]
pub enum LightningError {
    /// The persisted node entry is absent or expired.
    NodeNotFound,
    /// The persisted channel entry is absent or expired.
    ChannelsNotFound,
    /// No refresh has installed a node index for the symbol yet.
    NoNodes { symbol: String },
    /// A listing call of the refresh cycle failed; the cycle was aborted.
    ListingFailed,
}

impl LightningError {
    /// The error as text.
    pub fn message(&self) -> (r: String)
        ensures
            self is NodeNotFound ==> r@ == "node not found"@,
            self is ChannelsNotFound ==> r@ == "no channels for node"@,
            self matches LightningError::NoNodes { symbol } ==> r@ == "no nodes for "@
                + symbol@,
            self is ListingFailed ==> r@ == "lightning listing failed"@,
    {
        match self {
            LightningError::NodeNotFound => "node not found".to_owned(),
            LightningError::ChannelsNotFound => "no channels for node".to_owned(),
            LightningError::NoNodes { symbol } => {
                let mut r = "no nodes for ".to_owned();
                r.append(symbol.as_str());
                r
            },
            LightningError::ListingFailed => "lightning listing failed".to_owned(),
        }
    }
}

/// Seconds a persisted cache entry lives. The background refresh runs
/// every `CACHE_TTL_SECS` minus a safety margin, so entries are replaced
/// before the store expires them.
pub const CACHE_TTL_SECS: u64 = 3600;

/// The key of the persisted entry of one node.
pub open spec fn node_key(symbol: Seq<char>, id: Seq<char>) -> Seq<char> {
    "cln:"@ + symbol + ":node:"@ + id
}

/// The key of the persisted entry of one destination's channels.
pub open spec fn channels_key(symbol: Seq<char>, destination: Seq<char>) -> Seq<char> {
    "cln:"@ + symbol + ":channels:"@ + destination
}

/// The per-currency node index built by the latest successful refresh.
#[derive(Debug)]
pub struct NodeIndex {
    pub entries: Vec<(String, Node)>,
}

impl View for NodeIndex {
    type V = Seq<(Seq<char>, NodeV)>;

    open spec fn view(&self) -> Seq<(Seq<char>, NodeV)> {
        kv_view(self.entries@)
    }
}

/// The gossip cache of the lightning backend: persisted node and channel
/// entries, and the in-memory node index per currency symbol.
#[derive(Debug)]
pub struct ClnLightningInfo {
    pub node_entries: Vec<(String, Node)>,
    pub channel_entries: Vec<(String, ChannelList)>,
    pub index: Vec<(String, NodeIndex)>,
}

impl ClnLightningInfo {
    /// A cache with nothing persisted and no index installed: every read
    /// misses until a refresh succeeds.
    pub fn new() -> (r: Self)
        ensures
            kv_view(r.node_entries@) == Seq::<(Seq<char>, NodeV)>::empty(),
            kv_view(r.channel_entries@) == Seq::<(Seq<char>, Seq<ChannelV>)>::empty(),
            kv_view(r.index@) == Seq::<(Seq<char>, Seq<(Seq<char>, NodeV)>)>::empty(),
    {
        let r = ClnLightningInfo {
            node_entries: Vec::new(),
            channel_entries: Vec::new(),
            index: Vec::new(),
        };
        proof {
            assert(kv_view(r.node_entries@) =~= Seq::<(Seq<char>, NodeV)>::empty());
            assert(kv_view(r.channel_entries@) =~= Seq::<(Seq<char>, Seq<ChannelV>)>::empty());
            assert(kv_view(r.index@) =~= Seq::<(Seq<char>, Seq<(Seq<char>, NodeV)>)>::empty());
        }
        r
    }

    /// The key under which one node is persisted.
    pub fn cache_key_node(symbol: &str, id: &str) -> (r: String)
        ensures
            r@ == node_key(symbol@, id@),
    {
        let mut r = "cln:".to_owned();
        r.append(symbol);
        r.append(":node:");
        r.append(id);
        r
    }

    /// The key under which one destination's channels are persisted.
    pub fn cache_key_channels(symbol: &str, destination: &str) -> (r: String)
        ensures
            r@ == channels_key(symbol@, destination@),
    {
        let mut r = "cln:".to_owned();
        r.append(symbol);
        r.append(":channels:");
        r.append(destination);
        r
    }

    /// Looks the persisted entry of a node up; misses are the expected
    /// `NodeNotFound`, not an anomaly.
    pub fn get_node_info(&self, symbol: &str, node: &[u8]) -> (r: Result<Node, LightningError>)
        ensures
            match assoc_find(kv_view(self.node_entries@), node_key(symbol@, hex_of(node@))) {
                Some(n) => r is Ok && r->Ok_0@ == n,
                None => r is Err && r->Err_0 is NodeNotFound,
            },
    {
        let id_hex = hex_encode(node);
        let key = Self::cache_key_node(symbol, id_hex.as_str());
        match kv_get(&self.node_entries, &key) {
            Some(n) => Ok(n.clone()),
            None => Err(LightningError::NodeNotFound),
        }
    }

    /// Looks the persisted channel list of a destination up; misses are
    /// the expected `ChannelsNotFound`, not an anomaly.
    pub fn get_channels(&self, symbol: &str, destination: &[u8]) -> (r: Result<
        Vec<Channel>,
        LightningError,
    >)
        ensures
            match assoc_find(
                kv_view(self.channel_entries@),
                channels_key(symbol@, hex_of(destination@)),
            ) {
                Some(cs) => r is Ok && channel_views(r->Ok_0@) == cs,
                None => r is Err && r->Err_0 is ChannelsNotFound,
            },
    {
        let dest_hex = hex_encode(destination);
        let key = Self::cache_key_channels(symbol, dest_hex.as_str());
        match kv_get(&self.channel_entries, &key) {
            Some(list) => Ok(clone_channels(&list.channels)),
            None => Err(LightningError::ChannelsNotFound),
        }
    }
}

pub open spec fn listed_node_views(s: Seq<ListedNode>) -> Seq<ListedNodeV> {
    s.map_values(|n: ListedNode| n@)
}

pub open spec fn listed_channel_views(s: Seq<ListedChannel>) -> Seq<ListedChannelV> {
    s.map_values(|c: ListedChannel| c@)
}

/// The persisted form of a listed node: id and color hex-encoded, the
/// alias kept as it is.
pub open spec fn spec_node_of(n: ListedNodeV) -> NodeV {
    NodeV {
        id: hex_of(n.nodeid),
        alias: n.alias,
        color: match n.color {
            Some(c) => Some(hex_of(c)),
            None => None,
        },
    }
}

/// The persisted node entries after one refresh wrote every listed node
/// under its node key, in listing order.
pub open spec fn store_after_nodes(
    s0: Seq<(Seq<char>, NodeV)>,
    symbol: Seq<char>,
    ns: Seq<ListedNodeV>,
) -> Seq<(Seq<char>, NodeV)>
    decreases ns.len(),
{
    if ns.len() == 0 {
        s0
    } else {
        assoc_set(
            store_after_nodes(s0, symbol, ns.drop_last()),
            node_key(symbol, hex_of(ns.last().nodeid)),
            spec_node_of(ns.last()),
        )
    }
}

/// The fresh node index one refresh builds: node-id-hex to node, later
/// listings of the same id replacing earlier ones.
pub open spec fn spec_node_map(ns: Seq<ListedNodeV>) -> Seq<(Seq<char>, NodeV)>
    decreases ns.len(),
{
    if ns.len() == 0 {
        Seq::empty()
    } else {
        assoc_set(
            spec_node_map(ns.drop_last()),
            hex_of(ns.last().nodeid),
            spec_node_of(ns.last()),
        )
    }
}

/// The surviving channels of one refresh, grouped by destination-id hex in
/// first-encounter order: a channel survives when it is public and its
/// source resolves in the fresh node map; otherwise it is dropped, not
/// retried.
pub open spec fn spec_group_channels(
    cs: Seq<ListedChannelV>,
    m: Seq<(Seq<char>, NodeV)>,
) -> Seq<(Seq<char>, Seq<ChannelV>)>
    decreases cs.len(),
{
    if cs.len() == 0 {
        Seq::empty()
    } else {
        let rest = spec_group_channels(cs.drop_last(), m);
        let c = cs.last();
        if c.public && assoc_has(m, hex_of(c.source)) {
            let ch = spec_channel_of(c, assoc_find(m, hex_of(c.source))->0);
            let dest = hex_of(c.destination);
            assoc_set(
                rest,
                dest,
                match assoc_find(rest, dest) {
                    Some(l) => l.push(ch),
                    None => seq![ch],
                },
            )
        } else {
            rest
        }
    }
}

/// The persisted channel entries after one refresh wrote every surviving
/// group under its channels key.
pub open spec fn store_after_channels(
    s0: Seq<(Seq<char>, Seq<ChannelV>)>,
    symbol: Seq<char>,
    groups: Seq<(Seq<char>, Seq<ChannelV>)>,
) -> Seq<(Seq<char>, Seq<ChannelV>)>
    decreases groups.len(),
{
    if groups.len() == 0 {
        s0
    } else {
        assoc_set(
            store_after_channels(s0, symbol, groups.drop_last()),
            channels_key(symbol, groups.last().0),
            groups.last().1,
        )
    }
}

impl Channel {
    /// Builds the persisted channel from a listed channel and its resolved
    /// source node.
    pub fn from_listed(c: &ListedChannel, source: &Node) -> (r: Channel)
        ensures
            r@ == spec_channel_of(c@, source@),
    {
        Channel {
            source: Node {
                id: hex_encode(c.source.as_slice()),
                alias: clone_opt_string(&source.alias),
                color: clone_opt_string(&source.color),
            },
            short_channel_id: c.short_channel_id.clone(),
            capacity_sat: match c.amount_msat {
                Some(a) => Some(a / 1000),
                None => None,
            },
            active: c.active,
            info: ChannelInfo {
                base_fee_millisatoshi: c.base_fee_millisatoshi,
                fee_ppm: c.fee_per_millionth,
                delay: c.delay,
                htlc_minimum_millisatoshi: c.htlc_minimum_msat,
                htlc_maximum_millisatoshi: c.htlc_maximum_msat,
            },
        }
    }
}

/// Appends one surviving channel to its destination's group, creating the
/// group at the end on first encounter.
fn group_push(groups: &mut Vec<(String, ChannelList)>, key: String, ch: Channel)
    ensures
        kv_view(final(groups)@) == assoc_set(
            kv_view(old(groups)@),
            key@,
            match assoc_find(kv_view(old(groups)@), key@) {
                Some(l) => l.push(ch@),
                None => seq![ch@],
            },
        ),
{
    match crate::kv::kv_find_index(groups, &key) {
        Some(i) => {
            proof {
                crate::kv::lemma_assoc_find_some(kv_view(groups@), key@);
            }
            let mut pair = groups.remove(i);
            pair.1.channels.push(ch);
            proof {
                assert(channel_views(pair.1.channels@) =~= kv_view(old(groups)@)[i as int].1.push(
                    ch@,
                ));
            }
            groups.insert(i, pair);
            proof {
                assert(groups@ =~= old(groups)@.update(i as int, groups@[i as int]));
                assert(kv_view(groups@)[i as int].0 == key@);
                assert(kv_view(groups@) =~= assoc_set(
                    kv_view(old(groups)@),
                    key@,
                    assoc_find(kv_view(old(groups)@), key@)->0.push(ch@),
                ));
            }
        },
        None => {
            groups.push((key, ChannelList { channels: vec![ch] }));
            proof {
                assert(channel_views(groups@.last().1.channels@) =~= seq![ch@]);
                assert(kv_view(groups@) =~= assoc_set(
                    kv_view(old(groups)@),
                    key@,
                    seq![ch@],
                ));
            }
        },
    }
}

impl ClnLightningInfo {
    /// One refresh cycle for one currency, fed with the outcomes of the two
    /// listing calls. If either call failed the cycle is aborted: the prior
    /// in-memory index and every persisted entry are left untouched, and
    /// the next tick retries. With both listings in hand it persists every
    /// node, groups the surviving public channels by destination, persists
    /// them, and installs the fresh node index for the symbol.
    pub fn update_cache(
        &mut self,
        symbol: &str,
        nodes: Option<Vec<ListedNode>>,
        channels: Option<Vec<ListedChannel>>,
    ) -> (r: Result<(), LightningError>)
        ensures
            nodes is None || channels is None ==> *final(self) == *old(self) && r is Err
                && r->Err_0 is ListingFailed,
            nodes is Some && channels is Some ==> ({
                let ns = listed_node_views(nodes->0@);
                let cs = listed_channel_views(channels->0@);
                let m = spec_node_map(ns);
                &&& r is Ok
                &&& kv_view(final(self).node_entries@) == store_after_nodes(
                    kv_view(old(self).node_entries@),
                    symbol@,
                    ns,
                )
                &&& kv_view(final(self).channel_entries@) == store_after_channels(
                    kv_view(old(self).channel_entries@),
                    symbol@,
                    spec_group_channels(cs, m),
                )
                &&& kv_view(final(self).index@) == assoc_set(
                    kv_view(old(self).index@),
                    symbol@,
                    m,
                )
            }),
    {
        let (node_list, channel_list) = match (nodes, channels) {
            (Some(n), Some(c)) => (n, c),
            _ => {
                return Err(LightningError::ListingFailed);
            },
        };
        let ghost ns = listed_node_views(node_list@);
        let ghost s0 = kv_view(old(self).node_entries@);
        let mut fresh = NodeIndex { entries: Vec::new() };
        proof {
            assert(ns.take(0) =~= Seq::<ListedNodeV>::empty());
            assert(kv_view(fresh.entries@) =~= Seq::<(Seq<char>, NodeV)>::empty());
        }
        let mut i: usize = 0;
        while i < node_list.len()
            invariant
                i <= node_list@.len(),
                ns == listed_node_views(node_list@),
                s0 == kv_view(old(self).node_entries@),
                kv_view(self.node_entries@) == store_after_nodes(s0, symbol@, ns.take(i as int)),
                kv_view(fresh.entries@) == spec_node_map(ns.take(i as int)),
                self.channel_entries == old(self).channel_entries,
                self.index == old(self).index,
            decreases node_list@.len() - i,
        {
            let n = &node_list[i];
            let id_hex = hex_encode(n.nodeid.as_slice());
            let info = Node {
                id: id_hex.clone(),
                alias: clone_opt_string(&n.alias),
                color: match &n.color {
                    Some(c) => Some(hex_encode(c.as_slice())),
                    None => None,
                },
            };
            let key = Self::cache_key_node(symbol, id_hex.as_str());
            let info_for_index = info.clone();
            proof {
                assert(ns[i as int] == node_list@[i as int]@);
                assert(info@ == spec_node_of(ns[i as int]));
            }
            kv_set(&mut self.node_entries, key, info);
            kv_set(&mut fresh.entries, id_hex, info_for_index);
            proof {
                assert(ns.take(i + 1).drop_last() =~= ns.take(i as int));
                assert(ns.take(i + 1).last() == ns[i as int]);
            }
            i += 1;
        }
        proof {
            assert(ns.take(node_list@.len() as int) =~= ns);
        }
        let ghost cs = listed_channel_views(channel_list@);
        let ghost m = spec_node_map(ns);
        let mut groups: Vec<(String, ChannelList)> = Vec::new();
        proof {
            assert(cs.take(0) =~= Seq::<ListedChannelV>::empty());
            assert(kv_view(groups@) =~= Seq::<(Seq<char>, Seq<ChannelV>)>::empty());
        }
        let mut k: usize = 0;
        while k < channel_list.len()
            invariant
                k <= channel_list@.len(),
                cs == listed_channel_views(channel_list@),
                m == spec_node_map(ns),
                s0 == kv_view(old(self).node_entries@),
                kv_view(self.node_entries@) == store_after_nodes(s0, symbol@, ns),
                kv_view(fresh.entries@) == m,
                kv_view(groups@) == spec_group_channels(cs.take(k as int), m),
                self.channel_entries == old(self).channel_entries,
                self.index == old(self).index,
            decreases channel_list@.len() - k,
        {
            let c = &channel_list[k];
            proof {
                assert(cs[k as int] == channel_list@[k as int]@);
            }
            if c.public {
                let src_hex = hex_encode(c.source.as_slice());
                match kv_get(&fresh.entries, &src_hex) {
                    Some(src) => {
                        let ch = Channel::from_listed(c, src);
                        let dest_hex = hex_encode(c.destination.as_slice());
                        group_push(&mut groups, dest_hex, ch);
                    },
                    None => {},
                }
            }
            proof {
                assert(cs.take(k + 1).drop_last() =~= cs.take(k as int));
                assert(cs.take(k + 1).last() == cs[k as int]);
            }
            k += 1;
        }
        proof {
            assert(cs.take(channel_list@.len() as int) =~= cs);
        }
        let ghost gs = spec_group_channels(cs, m);
        let ghost c0 = kv_view(old(self).channel_entries@);
        proof {
            assert(kv_view(groups@).take(0) =~= Seq::<(Seq<char>, Seq<ChannelV>)>::empty());
        }
        let mut gi: usize = 0;
        while gi < groups.len()
            invariant
                gi <= groups@.len(),
                kv_view(groups@) == gs,
                c0 == kv_view(old(self).channel_entries@),
                s0 == kv_view(old(self).node_entries@),
                kv_view(self.node_entries@) == store_after_nodes(s0, symbol@, ns),
                kv_view(self.channel_entries@) == store_after_channels(
                    c0,
                    symbol@,
                    gs.take(gi as int),
                ),
                self.index == old(self).index,
            decreases groups@.len() - gi,
        {
            let g = &groups[gi];
            let key = Self::cache_key_channels(symbol, g.0.as_str());
            let entry = ChannelList { channels: clone_channels(&g.1.channels) };
            proof {
                assert(gs[gi as int] == (groups@[gi as int].0@, channel_views(
                    groups@[gi as int].1.channels@,
                )));
                assert(entry@ == gs[gi as int].1);
            }
            kv_set(&mut self.channel_entries, key, entry);
            proof {
                assert(gs.take(gi + 1).drop_last() =~= gs.take(gi as int));
                assert(gs.take(gi + 1).last() == gs[gi as int]);
            }
            gi += 1;
        }
        proof {
            assert(gs.take(groups@.len() as int) =~= gs);
        }
        kv_set(&mut self.index, symbol.to_owned(), fresh);
        Ok(())
    }
}

/// Before any refresh has completed, both cache-backed reads miss: an
/// empty store finds neither a node entry nor a channels entry.
pub proof fn lemma_fresh_cache_misses(info: ClnLightningInfo, symbol: Seq<char>, id: Seq<char>)
    requires
        kv_view(info.node_entries@).len() == 0,
        kv_view(info.channel_entries@).len() == 0,
    ensures
        assoc_find(kv_view(info.node_entries@), node_key(symbol, id)) is None,
        assoc_find(kv_view(info.channel_entries@), channels_key(symbol, id)) is None,
{
}

/// Concatenation with a fixed prefix is injective.
proof fn lemma_prefix_cancel(p: Seq<char>, a: Seq<char>, b: Seq<char>)
    requires
        p + a == p + b,
    ensures
        a == b,
{
    assert(a =~= (p + a).skip(p.len() as int));
    assert(b =~= (p + b).skip(p.len() as int));
}

/// Once a refresh cycle has succeeded, the persisted node entry of each
/// listed node holds that node: for a node whose id is not listed again
/// later in the same cycle, the lookup under its node key yields exactly
/// its persisted form.
pub proof fn lemma_refresh_persists_node(
    s0: Seq<(Seq<char>, NodeV)>,
    symbol: Seq<char>,
    ns: Seq<ListedNodeV>,
    i: int,
)
    requires
        0 <= i < ns.len(),
        forall|j: int| i < j < ns.len() ==> hex_of(ns[j].nodeid) != hex_of(ns[i].nodeid),
    ensures
        assoc_find(store_after_nodes(s0, symbol, ns), node_key(symbol, hex_of(ns[i].nodeid)))
            == Some(spec_node_of(ns[i])),
    decreases ns.len(),
{
    let key_i = node_key(symbol, hex_of(ns[i].nodeid));
    let prev = store_after_nodes(s0, symbol, ns.drop_last());
    let key_last = node_key(symbol, hex_of(ns.last().nodeid));
    if i == ns.len() - 1 {
        crate::kv::lemma_assoc_set_find(prev, key_last, spec_node_of(ns.last()), key_last);
    } else {
        assert(ns.drop_last()[i] == ns[i]);
        lemma_refresh_persists_node(s0, symbol, ns.drop_last(), i);
        assert(hex_of(ns[ns.len() - 1].nodeid) != hex_of(ns[i].nodeid));
        if key_last == key_i {
            lemma_prefix_cancel(
                "cln:"@ + symbol + ":node:"@,
                hex_of(ns.last().nodeid),
                hex_of(ns[i].nodeid),
            );
            assert(false);
        }
        crate::kv::lemma_assoc_set_find(prev, key_last, spec_node_of(ns.last()), key_i);
    }
}

/// Once a refresh cycle has succeeded, the persisted channels entry of a
/// destination group holds that group's full channel list: for a group
/// whose key no later group of the same cycle repeats, the lookup under
/// its channels key yields exactly its list.
pub proof fn lemma_refresh_persists_channels(
    s0: Seq<(Seq<char>, Seq<ChannelV>)>,
    symbol: Seq<char>,
    groups: Seq<(Seq<char>, Seq<ChannelV>)>,
    i: int,
)
    requires
        0 <= i < groups.len(),
        forall|j: int| i < j < groups.len() ==> groups[j].0 != groups[i].0,
    ensures
        assoc_find(store_after_channels(s0, symbol, groups), channels_key(symbol, groups[i].0))
            == Some(groups[i].1),
    decreases groups.len(),
{
    let key_i = channels_key(symbol, groups[i].0);
    let prev = store_after_channels(s0, symbol, groups.drop_last());
    let key_last = channels_key(symbol, groups.last().0);
    if i == groups.len() - 1 {
        crate::kv::lemma_assoc_set_find(prev, key_last, groups.last().1, key_last);
    } else {
        assert(groups.drop_last()[i] == groups[i]);
        lemma_refresh_persists_channels(s0, symbol, groups.drop_last(), i);
        if key_last == key_i {
            lemma_prefix_cancel(
                "cln:"@ + symbol + ":channels:"@,
                groups.last().0,
                groups[i].0,
            );
            assert(false);
        }
        crate::kv::lemma_assoc_set_find(prev, key_last, groups.last().1, key_i);
    }
}

/// The destination groups of one refresh carry pairwise distinct keys, so
/// the persistence of every group follows from the lemma above.
pub proof fn lemma_groups_distinct(cs: Seq<ListedChannelV>, m: Seq<(Seq<char>, NodeV)>)
    ensures
        forall|a: int, b: int|
            0 <= a < b < spec_group_channels(cs, m).len() ==> spec_group_channels(cs, m)[a].0
                != spec_group_channels(cs, m)[b].0,
    decreases cs.len(),
{
    if cs.len() > 0 {
        lemma_groups_distinct(cs.drop_last(), m);
        let rest = spec_group_channels(cs.drop_last(), m);
        let cur = spec_group_channels(cs, m);
        let c = cs.last();
        if c.public && assoc_has(m, hex_of(c.source)) {
            let dest = hex_of(c.destination);
            if assoc_has(rest, dest) {
                crate::kv::lemma_assoc_find_some(rest, dest);
                assert(cur.len() == rest.len());
                assert forall|x: int| 0 <= x < cur.len() implies cur[x].0 == rest[x].0 by {
                    if x != assoc_idx(rest, dest) {
                        assert(cur[x] == rest[x]);
                    }
                }
            } else {
                crate::kv::lemma_assoc_none_no_match(rest, dest);
                assert(cur.len() == rest.len() + 1);
                assert(cur[cur.len() - 1].0 == dest);
                assert forall|a: int, b: int| 0 <= a < b < cur.len() implies cur[a].0
                    != cur[b].0 by {
                    if b < rest.len() {
                        assert(cur[a] == rest[a] && cur[b] == rest[b]);
                    } else {
                        assert(cur[a] == rest[a]);
                        assert(rest[a].0 != dest);
                    }
                }
            }
        }
    }
}

/// The capability interface of a lightning backend, shared by any backend
/// implementation the service layer selects per currency.
pub trait LightningInfo {
    fn find_node_by_alias(&self, symbol: &str, alias: &str) -> Result<Vec<Node>, LightningError>;

    fn get_channels(&self, symbol: &str, destination: &[u8]) -> Result<Vec<Channel>, LightningError>;

    fn get_node_info(&self, symbol: &str, node: &[u8]) -> Result<Node, LightningError>;
}

impl LightningInfo for ClnLightningInfo {
    fn find_node_by_alias(&self, symbol: &str, alias: &str) -> Result<Vec<Node>, LightningError> {
        ClnLightningInfo::find_node_by_alias(self, symbol, alias)
    }

    fn get_channels(&self, symbol: &str, destination: &[u8]) -> Result<
        Vec<Channel>,
        LightningError,
    > {
        ClnLightningInfo::get_channels(self, symbol, destination)
    }

    fn get_node_info(&self, symbol: &str, node: &[u8]) -> Result<Node, LightningError> {
        ClnLightningInfo::get_node_info(self, symbol, node)
    }
}

} // verus!
