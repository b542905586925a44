//! Mempool relevance scanning: transaction data, the relevance predicate,
//! the fan-out plan for batched fetches, and the consumer that filters
//! fetched transactions.

use vstd::prelude::*;

verus! {

/// Upper bound on concurrently fetching workers.
pub const MAX_WORKERS: usize = 16;

/// Ids per batched fetch call, bounding the request payload size.
pub const MEMPOOL_FETCH_CHUNK_SIZE: usize = 64;

/// A reference to one output of a previous transaction.
#[derive(Debug, Clone, PartialEq, Eq)]
pub struct Outpoint {
    pub txid: Vec<u8>,
    pub vout: u32,
}

pub struct OutpointV {
    pub txid: Seq<u8>,
    pub vout: u32,
}

impl View for Outpoint {
    type V = OutpointV;

    open spec fn view(&self) -> OutpointV {
        OutpointV { txid: self.txid@, vout: self.vout }
    }
}

/// An unconfirmed transaction: its id, the outpoints its inputs spend, and
/// the script pubkeys of its outputs.
#[derive(Debug, PartialEq, Eq)]
pub struct Transaction {
    pub id: Vec<u8>,
    pub inputs: Vec<Outpoint>,
    pub output_scripts: Vec<Vec<u8>>,
}

pub struct TransactionV {
    pub id: Seq<u8>,
    pub inputs: Seq<OutpointV>,
    pub outputs: Seq<Seq<u8>>,
}

pub open spec fn outpoint_views(s: Seq<Outpoint>) -> Seq<OutpointV> {
    s.map_values(|o: Outpoint| o@)
}

pub open spec fn bytes_views(s: Seq<Vec<u8>>) -> Seq<Seq<u8>> {
    s.map_values(|b: Vec<u8>| b@)
}

impl View for Transaction {
    type V = TransactionV;

    open spec fn view(&self) -> TransactionV {
        TransactionV {
            id: self.id@,
            inputs: outpoint_views(self.inputs@),
            outputs: bytes_views(self.output_scripts@),
        }
    }
}

impl Transaction {
    /// The outpoints this transaction spends.
    pub fn input_outpoints(&self) -> (r: &Vec<Outpoint>)
        ensures
            outpoint_views(r@) == self@.inputs,
    {
        &self.inputs
    }

    /// The script pubkeys of this transaction's outputs.
    pub fn output_script_pubkeys(&self) -> (r: &Vec<Vec<u8>>)
        ensures
            bytes_views(r@) == self@.outputs,
    {
        &self.output_scripts
    }
}

/// A transaction is relevant exactly when one of its input outpoints is
/// watched, or one of its output script pubkeys is watched.
pub open spec fn spec_relevant(tx: TransactionV, ins: Seq<OutpointV>, outs: Seq<Seq<u8>>) -> bool {
    (exists|i: int| 0 <= i < tx.inputs.len() && ins.contains(tx.inputs[i])) || (exists|i: int|
        0 <= i < tx.outputs.len() && outs.contains(tx.outputs[i]))
}

/// With nothing watched, no transaction is relevant.
pub proof fn lemma_relevance_empty(tx: TransactionV)
    ensures
        !spec_relevant(tx, Seq::<OutpointV>::empty(), Seq::<Seq<u8>>::empty()),
{
}

fn bytes_eq(a: &Vec<u8>, b: &Vec<u8>) -> (r: bool)
    ensures
        r == (a@ == b@),
{
    let r = a == b;
    proof {
        if r {
            assert(a@ =~= b@);
        } else {
            if a@ == b@ {
                assert(a@.len() == b@.len());
                assert(false);
            }
        }
    }
    r
}

fn outpoint_eq(a: &Outpoint, b: &Outpoint) -> (r: bool)
    ensures
        r == (a@ == b@),
{
    let txid_eq = bytes_eq(&a.txid, &b.txid);
    txid_eq && a.vout == b.vout
}

fn outpoint_watched(watched: &Vec<Outpoint>, x: &Outpoint) -> (r: bool)
    ensures
        r == outpoint_views(watched@).contains(x@),
{
    let mut i: usize = 0;
    while i < watched.len()
        invariant
            i <= watched@.len(),
            forall|j: int| 0 <= j < i ==> outpoint_views(watched@)[j] != x@,
        decreases watched@.len() - i,
    {
        if outpoint_eq(&watched[i], x) {
            proof {
                assert(outpoint_views(watched@)[i as int] == x@);
            }
            return true;
        }
        i += 1;
    }
    false
}

fn script_watched(watched: &Vec<Vec<u8>>, x: &Vec<u8>) -> (r: bool)
    ensures
        r == bytes_views(watched@).contains(x@),
{
    let mut i: usize = 0;
    while i < watched.len()
        invariant
            i <= watched@.len(),
            forall|j: int| 0 <= j < i ==> bytes_views(watched@)[j] != x@,
        decreases watched@.len() - i,
    {
        if bytes_eq(&watched[i], x) {
            proof {
                assert(bytes_views(watched@)[i as int] == x@);
            }
            return true;
        }
        i += 1;
    }
    false
}

/// The kind of chain whose transactions are being decoded.
#[derive(Debug, Clone, Copy, PartialEq, Eq, Structural)]
pub enum ChainType {
    Bitcoin,
    Elements,
}

/// Connection settings for the chain's RPC endpoint, as plain values.
#[derive(Debug, Clone, PartialEq, Eq)]
pub struct Config {
    pub host: String,
    pub port: u16,
    pub cookie: Option<String>,
    pub user: Option<String>,
    pub password: Option<String>,
}

/// A chain client: the decisions of the mempool scanner, with the RPC
/// transport left to the caller.
#[derive(Debug, Clone, PartialEq)]
pub struct ChainClient {
    pub client_type: ChainType,
    pub symbol: String,
    pub config: Config,
}

impl ChainClient {
    pub fn new(client_type: ChainType, symbol: String, config: Config) -> (c: Self)
        ensures
            c.client_type == client_type,
            c.symbol@ == symbol@,
            c.config == config,
    {
        ChainClient { client_type, symbol, config }
    }

    /// What kind of client this is.
    pub fn kind(&self) -> (r: String)
        ensures
            r@ == "Chain client"@,
    {
        "Chain client".to_owned()
    }

    /// The currency symbol this client serves.
    pub fn symbol(&self) -> (r: String)
        ensures
            r@ == self.symbol@,
    {
        self.symbol.clone()
    }

    /// Whether a transaction spends a watched outpoint or pays to a watched
    /// script pubkey.
    pub fn is_relevant_tx(
        relevant_inputs: &Vec<Outpoint>,
        relevant_outputs: &Vec<Vec<u8>>,
        tx: &Transaction,
    ) -> (r: bool)
        ensures
            r == spec_relevant(
                tx@,
                outpoint_views(relevant_inputs@),
                bytes_views(relevant_outputs@),
            ),
    {
        let mut i: usize = 0;
        while i < tx.inputs.len()
            invariant
                i <= tx.inputs@.len(),
                forall|j: int|
                    0 <= j < i ==> !outpoint_views(relevant_inputs@).contains(tx@.inputs[j]),
            decreases tx.inputs@.len() - i,
        {
            if outpoint_watched(relevant_inputs, &tx.inputs[i]) {
                proof {
                    assert(tx@.inputs[i as int] == tx.inputs@[i as int]@);
                }
                return true;
            }
            proof {
                assert(tx@.inputs[i as int] == tx.inputs@[i as int]@);
            }
            i += 1;
        }
        let mut k: usize = 0;
        while k < tx.output_scripts.len()
            invariant
                k <= tx.output_scripts@.len(),
                forall|j: int|
                    0 <= j < tx.inputs@.len() ==> !outpoint_views(relevant_inputs@).contains(
                        tx@.inputs[j],
                    ),
                forall|j: int|
                    0 <= j < k ==> !bytes_views(relevant_outputs@).contains(tx@.outputs[j]),
            decreases tx.output_scripts@.len() - k,
        {
            if script_watched(relevant_outputs, &tx.output_scripts[k]) {
                proof {
                    assert(tx@.outputs[k as int] == tx.output_scripts@[k as int]@);
                }
                return true;
            }
            proof {
                assert(tx@.outputs[k as int] == tx.output_scripts@[k as int]@);
            }
            k += 1;
        }
        false
    }
}

} // verus!
