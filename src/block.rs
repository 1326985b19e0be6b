use vstd::prelude::*;

verus! {

/// Length of a block hash and of a transaction hash, in bytes.
pub const HASH_LEN: usize = 32;

/// Length of a minting policy identifier, in bytes.
pub const POLICY_ID_LEN: usize = 28;

/// Position and identity of a block.
#[derive(Clone, Debug, PartialEq, Eq)]
pub struct Header {
    pub slot: u64,
    pub hash: Vec<u8>,
}

/// A reference to an output of an earlier transaction.
#[derive(Clone, Debug, PartialEq, Eq)]
pub struct Input {
    pub tx_hash: Vec<u8>,
    pub index: u64,
}

/// One transaction output, holding an amount in lovelace.
#[derive(Clone, Copy, Debug, PartialEq, Eq)]
pub struct Output {
    pub coin: u64,
}

/// One asset's quantity delta: positive when minted, negative when burned.
#[derive(Clone, Debug, PartialEq, Eq)]
pub struct Asset {
    pub name: Vec<u8>,
    pub mint_coin: i64,
}

/// The asset deltas of one minting policy within a transaction.
#[derive(Clone, Debug, PartialEq, Eq)]
pub struct MintGroup {
    pub policy_id: Vec<u8>,
    pub assets: Vec<Asset>,
}

/// One ledger transaction.
#[derive(Clone, Debug, PartialEq, Eq)]
pub struct Transaction {
    pub inputs: Vec<Input>,
    pub outputs: Vec<Output>,
    pub fee: u64,
    pub mint: Vec<MintGroup>,
}

/// The transactions of a block, in block order.
#[derive(Clone, Debug, PartialEq, Eq)]
pub struct Body {
    pub tx: Vec<Transaction>,
}

/// One ledger block; header and body may each be absent.
#[derive(Clone, Debug, PartialEq, Eq)]
pub struct Block {
    pub header: Option<Header>,
    pub body: Option<Body>,
    pub timestamp: u64,
}

/// The views of the items of a sequence.
pub open spec fn views<T: View>(v: Seq<T>) -> Seq<T::V> {
    v.map_values(|t: T| t@)
}

pub struct HeaderModel {
    pub slot: u64,
    pub hash: Seq<u8>,
}

pub struct InputModel {
    pub tx_hash: Seq<u8>,
    pub index: u64,
}

pub struct AssetModel {
    pub name: Seq<u8>,
    pub mint_coin: i64,
}

pub struct MintGroupModel {
    pub policy_id: Seq<u8>,
    pub assets: Seq<AssetModel>,
}

pub struct TransactionModel {
    pub inputs: Seq<InputModel>,
    pub outputs: Seq<Output>,
    pub fee: u64,
    pub mint: Seq<MintGroupModel>,
}

pub struct BodyModel {
    pub tx: Seq<TransactionModel>,
}

pub struct BlockModel {
    pub header: Option<HeaderModel>,
    pub body: Option<BodyModel>,
    pub timestamp: u64,
}

impl View for Header {
    type V = HeaderModel;

    open spec fn view(&self) -> HeaderModel {
        HeaderModel { slot: self.slot, hash: self.hash@ }
    }
}

impl View for Input {
    type V = InputModel;

    open spec fn view(&self) -> InputModel {
        InputModel { tx_hash: self.tx_hash@, index: self.index }
    }
}

impl View for Output {
    type V = Output;

    open spec fn view(&self) -> Output {
        *self
    }
}

impl View for Asset {
    type V = AssetModel;

    open spec fn view(&self) -> AssetModel {
        AssetModel { name: self.name@, mint_coin: self.mint_coin }
    }
}

impl View for MintGroup {
    type V = MintGroupModel;

    open spec fn view(&self) -> MintGroupModel {
        MintGroupModel {
            policy_id: self.policy_id@,
            assets: views(self.assets@),
        }
    }
}

impl View for Transaction {
    type V = TransactionModel;

    open spec fn view(&self) -> TransactionModel {
        TransactionModel {
            inputs: views(self.inputs@),
            outputs: views(self.outputs@),
            fee: self.fee,
            mint: views(self.mint@),
        }
    }
}

impl View for Body {
    type V = BodyModel;

    open spec fn view(&self) -> BodyModel {
        BodyModel { tx: views(self.tx@) }
    }
}

impl View for Block {
    type V = BlockModel;

    open spec fn view(&self) -> BlockModel {
        BlockModel {
            header: match self.header {
                Some(h) => Some(h@),
                None => None,
            },
            body: match self.body {
                Some(b) => Some(b@),
                None => None,
            },
            timestamp: self.timestamp,
        }
    }
}

impl HeaderModel {
    /// The hash has the length of the chain's digest.
    pub open spec fn valid(self) -> bool {
        self.hash.len() == HASH_LEN
    }
}

impl InputModel {
    pub open spec fn valid(self) -> bool {
        self.tx_hash.len() == HASH_LEN
    }
}

impl MintGroupModel {
    /// The policy identifier has the length of a policy digest.
    pub open spec fn valid(self) -> bool {
        self.policy_id.len() == POLICY_ID_LEN
    }
}

impl TransactionModel {
    pub open spec fn valid(self) -> bool {
        &&& forall|i: int| 0 <= i < self.inputs.len() ==> (#[trigger] self.inputs[i]).valid()
        &&& forall|i: int| 0 <= i < self.mint.len() ==> (#[trigger] self.mint[i]).valid()
    }
}

impl BodyModel {
    pub open spec fn valid(self) -> bool {
        forall|i: int| 0 <= i < self.tx.len() ==> (#[trigger] self.tx[i]).valid()
    }
}

impl BlockModel {
    /// Every fixed-length digest in the block has its fixed length.
    pub open spec fn valid(self) -> bool {
        &&& (self.header matches Some(h) ==> h.valid())
        &&& (self.body matches Some(b) ==> b.valid())
    }
}


impl Transaction {
    /// Whether every input hash and policy identifier has its fixed length.
    pub fn is_valid(&self) -> (r: bool)
        ensures
            r == self@.valid(),
    {
        let mut i: usize = 0;
        while i < self.inputs.len()
            invariant
                i <= self.inputs@.len(),
                forall|k: int| 0 <= k < i ==> (#[trigger] self@.inputs[k]).valid(),
            decreases self.inputs@.len() - i,
        {
            if self.inputs[i].tx_hash.len() != HASH_LEN {
                assert(!self@.inputs[i as int].valid());
                return false;
            }
            i = i + 1;
        }
        let mut j: usize = 0;
        while j < self.mint.len()
            invariant
                j <= self.mint@.len(),
                i == self.inputs@.len(),
                forall|k: int| 0 <= k < i ==> (#[trigger] self@.inputs[k]).valid(),
                forall|k: int| 0 <= k < j ==> (#[trigger] self@.mint[k]).valid(),
            decreases self.mint@.len() - j,
        {
            if self.mint[j].policy_id.len() != POLICY_ID_LEN {
                assert(!self@.mint[j as int].valid());
                return false;
            }
            j = j + 1;
        }
        true
    }
}

impl Block {
    /// Whether every digest in the block has its fixed length.
    pub fn is_valid(&self) -> (r: bool)
        ensures
            r == self@.valid(),
    {
        if let Some(h) = &self.header {
            if h.hash.len() != HASH_LEN {
                return false;
            }
        }
        if let Some(b) = &self.body {
            let mut i: usize = 0;
            while i < b.tx.len()
                invariant
                    self.body == Some(*b),
                    i <= b.tx@.len(),
                    forall|k: int| 0 <= k < i ==> (#[trigger] b@.tx[k]).valid(),
                decreases b.tx@.len() - i,
            {
                if !b.tx[i].is_valid() {
                    assert(!b@.tx[i as int].valid());
                    return false;
                }
                i = i + 1;
            }
        }
        true
    }
}

} // verus!
