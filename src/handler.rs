use crate::block::{
    Asset, AssetModel, Block, BlockModel, Header, MintGroup, MintGroupModel, Output, Transaction,
    TransactionModel, views,
};
use vstd::prelude::*;

verus! {

/// One diagnostic record emitted while a block is walked.
#[derive(Clone, Debug, PartialEq, Eq)]
pub enum LogRecord {
    /// Slot and hex-encoded hash of a block that has a header.
    BlockSummary { slot: u64, hash: String },
    /// The block has no header.
    MissingHeader,
    /// Number of transactions in the body.
    TransactionCount { count: usize },
    /// One transaction, by position in the block.
    Transaction { index: usize, inputs: usize, outputs: usize, fee: u64 },
    /// One output, by position in its transaction.
    Output { index: usize, coin: u64 },
    /// Hex-encoded policy identifier of a mint group.
    MintPolicy { policy: String },
    /// An asset whose quantity grew by `amount`.
    Minted { name: String, amount: u64 },
    /// An asset whose quantity shrank by `amount`.
    Burned { name: String, amount: u64 },
    /// The block's timestamp, in seconds since the epoch.
    Timestamp { seconds: u64 },
}

pub enum LogRecordModel {
    BlockSummary { slot: u64, hash: Seq<char> },
    MissingHeader,
    TransactionCount { count: nat },
    Transaction { index: nat, inputs: nat, outputs: nat, fee: u64 },
    Output { index: nat, coin: u64 },
    MintPolicy { policy: Seq<char> },
    Minted { name: Seq<char>, amount: nat },
    Burned { name: Seq<char>, amount: nat },
    Timestamp { seconds: u64 },
}

impl View for LogRecord {
    type V = LogRecordModel;

    open spec fn view(&self) -> LogRecordModel {
        match self {
            LogRecord::BlockSummary { slot, hash } => LogRecordModel::BlockSummary {
                slot: *slot,
                hash: hash@,
            },
            LogRecord::MissingHeader => LogRecordModel::MissingHeader,
            LogRecord::TransactionCount { count } => LogRecordModel::TransactionCount {
                count: *count as nat,
            },
            LogRecord::Transaction { index, inputs, outputs, fee } => LogRecordModel::Transaction {
                index: *index as nat,
                inputs: *inputs as nat,
                outputs: *outputs as nat,
                fee: *fee,
            },
            LogRecord::Output { index, coin } => LogRecordModel::Output {
                index: *index as nat,
                coin: *coin,
            },
            LogRecord::MintPolicy { policy } => LogRecordModel::MintPolicy { policy: policy@ },
            LogRecord::Minted { name, amount } => LogRecordModel::Minted {
                name: name@,
                amount: *amount as nat,
            },
            LogRecord::Burned { name, amount } => LogRecordModel::Burned {
                name: name@,
                amount: *amount as nat,
            },
            LogRecord::Timestamp { seconds } => LogRecordModel::Timestamp { seconds: *seconds },
        }
    }
}

/// Why the transform refused a block.
#[derive(Clone, Copy, Debug, PartialEq, Eq, Structural)]
pub enum HandlerError {
    /// A digest in the block does not have its fixed length.
    InvalidBlock,
}

pub open spec fn hex_digit(d: u8) -> char
    recommends
        d < 16,
{
    seq!['0', '1', '2', '3', '4', '5', '6', '7', '8', '9', 'a', 'b', 'c', 'd', 'e', 'f'][d as int]
}

/// Two lowercase hex digits for each byte, the high nibble first.
pub open spec fn hex_of(b: Seq<u8>) -> Seq<char>
    decreases b.len(),
{
    if b.len() == 0 {
        Seq::empty()
    } else {
        seq![hex_digit(b[0] / 16), hex_digit(b[0] % 16)] + hex_of(b.drop_first())
    }
}

/// Relies on hex::encode: two lowercase hex digits for each byte, the high
/// nibble first.
#[verifier::external_body]
fn to_hex(b: &Vec<u8>) -> (r: String)
    ensures
        r@ == hex_of(b@),
{
    hex::encode(b)
}

/// The record of one asset: none when its quantity did not change.
pub open spec fn asset_records(a: AssetModel) -> Seq<LogRecordModel> {
    if a.mint_coin > 0 {
        seq![LogRecordModel::Minted { name: hex_of(a.name), amount: a.mint_coin as nat }]
    } else if a.mint_coin < 0 {
        seq![LogRecordModel::Burned { name: hex_of(a.name), amount: (-a.mint_coin) as nat }]
    } else {
        Seq::empty()
    }
}

pub open spec fn assets_records(assets: Seq<AssetModel>) -> Seq<LogRecordModel>
    decreases assets.len(),
{
    if assets.len() == 0 {
        Seq::empty()
    } else {
        assets_records(assets.drop_last()) + asset_records(assets.last())
    }
}

pub open spec fn group_records(g: MintGroupModel) -> Seq<LogRecordModel> {
    seq![LogRecordModel::MintPolicy { policy: hex_of(g.policy_id) }] + assets_records(g.assets)
}

pub open spec fn groups_records(gs: Seq<MintGroupModel>) -> Seq<LogRecordModel>
    decreases gs.len(),
{
    if gs.len() == 0 {
        Seq::empty()
    } else {
        groups_records(gs.drop_last()) + group_records(gs.last())
    }
}

pub open spec fn outputs_records(outs: Seq<Output>) -> Seq<LogRecordModel>
    decreases outs.len(),
{
    if outs.len() == 0 {
        Seq::empty()
    } else {
        outputs_records(outs.drop_last()) + seq![
            LogRecordModel::Output { index: (outs.len() - 1) as nat, coin: outs.last().coin },
        ]
    }
}

/// The records of the transaction at position `index`: its summary, then its
/// outputs, then its mint groups.
pub open spec fn tx_records(index: nat, t: TransactionModel) -> Seq<LogRecordModel> {
    seq![
        LogRecordModel::Transaction {
            index,
            inputs: t.inputs.len(),
            outputs: t.outputs.len(),
            fee: t.fee,
        },
    ] + outputs_records(t.outputs) + groups_records(t.mint)
}

pub open spec fn txs_records(txs: Seq<TransactionModel>) -> Seq<LogRecordModel>
    decreases txs.len(),
{
    if txs.len() == 0 {
        Seq::empty()
    } else {
        txs_records(txs.drop_last()) + tx_records((txs.len() - 1) as nat, txs.last())
    }
}

/// Everything the transform emits for a block: a summary, the body's
/// transactions if there is a body, then the timestamp.
pub open spec fn block_records(b: BlockModel) -> Seq<LogRecordModel> {
    let summary = match b.header {
        Some(h) => seq![LogRecordModel::BlockSummary { slot: h.slot, hash: hex_of(h.hash) }],
        None => seq![LogRecordModel::MissingHeader],
    };
    let body = match b.body {
        Some(bd) => seq![LogRecordModel::TransactionCount { count: bd.tx.len() }] + txs_records(
            bd.tx,
        ),
        None => Seq::empty(),
    };
    summary + body + seq![LogRecordModel::Timestamp { seconds: b.timestamp }]
}

fn emit(log: &mut Vec<LogRecord>, rec: LogRecord)
    ensures
        views(final(log)@) == views(old(log)@).push(rec@),
{
    log.push(rec);
    assert(views(log@) =~= views(old(log)@).push(rec@));
}

fn log_asset(a: &Asset, log: &mut Vec<LogRecord>)
    ensures
        views(final(log)@) == views(old(log)@) + asset_records(a@),
{
    if a.mint_coin > 0 {
        emit(log, LogRecord::Minted { name: to_hex(&a.name), amount: a.mint_coin as u64 });
    } else if a.mint_coin < 0 {
        let amount = ((-(a.mint_coin + 1)) as u64) + 1;
        emit(log, LogRecord::Burned { name: to_hex(&a.name), amount });
    } else {
        assert(views(log@) =~= views(old(log)@) + asset_records(a@));
        return;
    }
    assert(views(log@) =~= views(old(log)@) + asset_records(a@));
}

fn log_mint_group(g: &MintGroup, log: &mut Vec<LogRecord>)
    ensures
        views(final(log)@) == views(old(log)@) + group_records(g@),
{
    emit(log, LogRecord::MintPolicy { policy: to_hex(&g.policy_id) });
    let ghost start = views(log@);
    let ghost ms = views(g.assets@);
    let mut i: usize = 0;
    while i < g.assets.len()
        invariant
            i <= g.assets@.len(),
            ms == views(g.assets@),
            views(log@) == start + assets_records(ms.take(i as int)),
        decreases g.assets@.len() - i,
    {
        log_asset(&g.assets[i], log);
        assert(ms.take(i + 1).drop_last() =~= ms.take(i as int));
        i = i + 1;
        assert(views(log@) =~= start + assets_records(ms.take(i as int)));
    }
    assert(ms.take(i as int) =~= ms);
    assert(views(log@) =~= views(old(log)@) + group_records(g@));
}

fn log_transaction(index: usize, t: &Transaction, log: &mut Vec<LogRecord>)
    ensures
        views(final(log)@) == views(old(log)@) + tx_records(index as nat, t@),
{
    emit(
        log,
        LogRecord::Transaction {
            index,
            inputs: t.inputs.len(),
            outputs: t.outputs.len(),
            fee: t.fee,
        },
    );
    let ghost start = views(log@);
    let ghost outs = views(t.outputs@);
    let mut j: usize = 0;
    while j < t.outputs.len()
        invariant
            j <= t.outputs@.len(),
            outs == views(t.outputs@),
            views(log@) == start + outputs_records(outs.take(j as int)),
        decreases t.outputs@.len() - j,
    {
        emit(log, LogRecord::Output { index: j, coin: t.outputs[j].coin });
        assert(outs.take(j + 1).drop_last() =~= outs.take(j as int));
        j = j + 1;
        assert(views(log@) =~= start + outputs_records(outs.take(j as int)));
    }
    assert(outs.take(j as int) =~= outs);
    let ghost mid = views(log@);
    let ghost gs = views(t.mint@);
    let mut k: usize = 0;
    while k < t.mint.len()
        invariant
            k <= t.mint@.len(),
            gs == views(t.mint@),
            views(log@) == mid + groups_records(gs.take(k as int)),
        decreases t.mint@.len() - k,
    {
        log_mint_group(&t.mint[k], log);
        assert(gs.take(k + 1).drop_last() =~= gs.take(k as int));
        k = k + 1;
        assert(views(log@) =~= mid + groups_records(gs.take(k as int)));
    }
    assert(gs.take(k as int) =~= gs);
    assert(views(log@) =~= views(old(log)@) + tx_records(index as nat, t@));
}


/// Walks a block and appends its records to `log`, then hands the block back
/// unchanged. A block with a digest of the wrong length is refused, and
/// nothing is logged for it.
pub fn map_blocks(block: Block, log: &mut Vec<LogRecord>) -> (r: Result<Block, HandlerError>)
    ensures
        block@.valid() ==> r == Ok::<Block, HandlerError>(block) && views(final(log)@) == views(
            old(log)@,
        ) + block_records(block@),
        !block@.valid() ==> r == Err::<Block, HandlerError>(HandlerError::InvalidBlock)
            && final(log)@ == old(log)@,
{
    if !block.is_valid() {
        return Err(HandlerError::InvalidBlock);
    }
    match &block.header {
        Some(h) => emit(log, LogRecord::BlockSummary { slot: h.slot, hash: to_hex(&h.hash) }),
        None => emit(log, LogRecord::MissingHeader),
    }
    let ghost after_summary = views(log@);
    if let Some(body) = &block.body {
        emit(log, LogRecord::TransactionCount { count: body.tx.len() });
        let ghost start = views(log@);
        let ghost txs = views(body.tx@);
        let mut i: usize = 0;
        while i < body.tx.len()
            invariant
                i <= body.tx@.len(),
                txs == views(body.tx@),
                views(log@) == start + txs_records(txs.take(i as int)),
            decreases body.tx@.len() - i,
        {
            log_transaction(i, &body.tx[i], log);
            assert(txs.take(i + 1).drop_last() =~= txs.take(i as int));
            i = i + 1;
            assert(views(log@) =~= start + txs_records(txs.take(i as int)));
        }
        assert(txs.take(i as int) =~= txs);
    }
    emit(log, LogRecord::Timestamp { seconds: block.timestamp });
    assert(views(log@) =~= views(old(log)@) + block_records(block@));
    Ok(block)
}


/// The transaction records among `rs`, in order.
pub open spec fn transaction_entries(rs: Seq<LogRecordModel>) -> Seq<LogRecordModel>
    decreases rs.len(),
{
    if rs.len() == 0 {
        Seq::empty()
    } else if rs.last() is Transaction {
        transaction_entries(rs.drop_last()).push(rs.last())
    } else {
        transaction_entries(rs.drop_last())
    }
}

/// The number of output records among `rs`.
pub open spec fn output_entry_count(rs: Seq<LogRecordModel>) -> nat
    decreases rs.len(),
{
    if rs.len() == 0 {
        0
    } else if rs.last() is Output {
        output_entry_count(rs.drop_last()) + 1
    } else {
        output_entry_count(rs.drop_last())
    }
}

/// The total number of outputs over all transactions.
pub open spec fn total_outputs(txs: Seq<TransactionModel>) -> nat
    decreases txs.len(),
{
    if txs.len() == 0 {
        0
    } else {
        total_outputs(txs.drop_last()) + txs.last().outputs.len()
    }
}

/// The summary record of the transaction at position `index`.
pub open spec fn tx_summary(index: nat, t: TransactionModel) -> LogRecordModel {
    LogRecordModel::Transaction { index, inputs: t.inputs.len(), outputs: t.outputs.len(), fee: t.fee }
}

proof fn lemma_entries_append(a: Seq<LogRecordModel>, b: Seq<LogRecordModel>)
    ensures
        transaction_entries(a + b) == transaction_entries(a) + transaction_entries(b),
        output_entry_count(a + b) == output_entry_count(a) + output_entry_count(b),
    decreases b.len(),
{
    if b.len() == 0 {
        assert(a + b =~= a);
        assert(transaction_entries(a) + transaction_entries(b) =~= transaction_entries(a));
    } else {
        assert((a + b).drop_last() =~= a + b.drop_last());
        assert((a + b).last() == b.last());
        lemma_entries_append(a, b.drop_last());
        assert(transaction_entries(a + b) =~= transaction_entries(a) + transaction_entries(b));
    }
}

proof fn lemma_entries_single(r: LogRecordModel)
    ensures
        transaction_entries(seq![r]) == (if r is Transaction {
            seq![r]
        } else {
            Seq::<LogRecordModel>::empty()
        }),
        output_entry_count(seq![r]) == (if r is Output {
            1nat
        } else {
            0nat
        }),
{
    let rs = seq![r];
    assert(rs.drop_last() =~= Seq::<LogRecordModel>::empty());
    assert(rs.last() == r);
    assert(transaction_entries(Seq::<LogRecordModel>::empty()) == Seq::<LogRecordModel>::empty());
    assert(output_entry_count(Seq::<LogRecordModel>::empty()) == 0);
    if r is Transaction {
        assert(Seq::<LogRecordModel>::empty().push(r) =~= seq![r]);
    }
}

proof fn lemma_asset_entries(a: AssetModel)
    ensures
        transaction_entries(asset_records(a)) == Seq::<LogRecordModel>::empty(),
        output_entry_count(asset_records(a)) == 0,
{
    if a.mint_coin > 0 {
        lemma_entries_single(
            LogRecordModel::Minted { name: hex_of(a.name), amount: a.mint_coin as nat },
        );
    } else if a.mint_coin < 0 {
        lemma_entries_single(
            LogRecordModel::Burned { name: hex_of(a.name), amount: (-a.mint_coin) as nat },
        );
    }
}

proof fn lemma_assets_entries(assets: Seq<AssetModel>)
    ensures
        transaction_entries(assets_records(assets)) == Seq::<LogRecordModel>::empty(),
        output_entry_count(assets_records(assets)) == 0,
    decreases assets.len(),
{
    if assets.len() > 0 {
        lemma_assets_entries(assets.drop_last());
        lemma_asset_entries(assets.last());
        lemma_entries_append(assets_records(assets.drop_last()), asset_records(assets.last()));
        assert(Seq::<LogRecordModel>::empty() + Seq::<LogRecordModel>::empty() =~= Seq::<
            LogRecordModel,
        >::empty());
    }
}

proof fn lemma_groups_entries(gs: Seq<MintGroupModel>)
    ensures
        transaction_entries(groups_records(gs)) == Seq::<LogRecordModel>::empty(),
        output_entry_count(groups_records(gs)) == 0,
    decreases gs.len(),
{
    if gs.len() > 0 {
        let g = gs.last();
        let head = seq![LogRecordModel::MintPolicy { policy: hex_of(g.policy_id) }];
        lemma_groups_entries(gs.drop_last());
        lemma_assets_entries(g.assets);
        lemma_entries_single(head[0]);
        assert(head =~= seq![head[0]]);
        lemma_entries_append(head, assets_records(g.assets));
        lemma_entries_append(groups_records(gs.drop_last()), group_records(g));
        assert(Seq::<LogRecordModel>::empty() + Seq::<LogRecordModel>::empty() =~= Seq::<
            LogRecordModel,
        >::empty());
    }
}

proof fn lemma_outputs_entries(outs: Seq<Output>)
    ensures
        transaction_entries(outputs_records(outs)) == Seq::<LogRecordModel>::empty(),
        output_entry_count(outputs_records(outs)) == outs.len(),
    decreases outs.len(),
{
    if outs.len() > 0 {
        let last = seq![LogRecordModel::Output { index: (outs.len() - 1) as nat, coin: outs.last().coin }];
        lemma_outputs_entries(outs.drop_last());
        lemma_entries_single(last[0]);
        assert(last =~= seq![last[0]]);
        lemma_entries_append(outputs_records(outs.drop_last()), last);
        assert(Seq::<LogRecordModel>::empty() + Seq::<LogRecordModel>::empty() =~= Seq::<
            LogRecordModel,
        >::empty());
    }
}

proof fn lemma_tx_entries(index: nat, t: TransactionModel)
    ensures
        transaction_entries(tx_records(index, t)) == seq![tx_summary(index, t)],
        output_entry_count(tx_records(index, t)) == t.outputs.len(),
{
    let head = seq![tx_summary(index, t)];
    lemma_entries_single(tx_summary(index, t));
    lemma_outputs_entries(t.outputs);
    lemma_groups_entries(t.mint);
    lemma_entries_append(head, outputs_records(t.outputs));
    lemma_entries_append(head + outputs_records(t.outputs), groups_records(t.mint));
    assert(transaction_entries(tx_records(index, t)) =~= seq![tx_summary(index, t)]);
}

/// A block of N transactions, the i-th with M_i outputs, gives exactly N
/// transaction records, one for each transaction in block order, and the
/// sum of the M_i output records.
pub proof fn lemma_record_multiplicity(txs: Seq<TransactionModel>)
    ensures
        transaction_entries(txs_records(txs)) == Seq::new(
            txs.len(),
            |i: int| tx_summary(i as nat, txs[i]),
        ),
        output_entry_count(txs_records(txs)) == total_outputs(txs),
    decreases txs.len(),
{
    if txs.len() > 0 {
        let init = txs.drop_last();
        lemma_record_multiplicity(init);
        lemma_tx_entries((txs.len() - 1) as nat, txs.last());
        lemma_entries_append(txs_records(init), tx_records((txs.len() - 1) as nat, txs.last()));
        assert(transaction_entries(txs_records(txs)) =~= Seq::new(
            txs.len(),
            |i: int| tx_summary(i as nat, txs[i]),
        ));
    } else {
        assert(transaction_entries(txs_records(txs)) =~= Seq::new(
            txs.len(),
            |i: int| tx_summary(i as nat, txs[i]),
        ));
    }
}

/// The same count, for a whole block with a body.
pub proof fn lemma_block_multiplicity(b: BlockModel)
    requires
        b.body is Some,
    ensures
        transaction_entries(block_records(b)) == Seq::new(
            b.body->Some_0.tx.len(),
            |i: int| tx_summary(i as nat, b.body->Some_0.tx[i]),
        ),
        output_entry_count(block_records(b)) == total_outputs(b.body->Some_0.tx),
{
    let txs = b.body->Some_0.tx;
    let summary = match b.header {
        Some(h) => seq![LogRecordModel::BlockSummary { slot: h.slot, hash: hex_of(h.hash) }],
        None => seq![LogRecordModel::MissingHeader],
    };
    let count = seq![LogRecordModel::TransactionCount { count: txs.len() }];
    let last = seq![LogRecordModel::Timestamp { seconds: b.timestamp }];
    lemma_entries_single(summary[0]);
    assert(summary =~= seq![summary[0]]);
    lemma_entries_single(count[0]);
    assert(count =~= seq![count[0]]);
    lemma_entries_single(last[0]);
    assert(last =~= seq![last[0]]);
    lemma_record_multiplicity(txs);
    lemma_entries_append(summary, count);
    lemma_entries_append(summary + count, txs_records(txs));
    assert(block_records(b) =~= summary + count + txs_records(txs) + last);
    lemma_entries_append(summary + count + txs_records(txs), last);
    assert(transaction_entries(block_records(b)) =~= Seq::new(
        txs.len(),
        |i: int| tx_summary(i as nat, txs[i]),
    ));
}

/// A positive quantity is a mint of that amount, a negative one a burn of
/// its magnitude, and a zero one gives no record.
pub proof fn lemma_asset_classification(a: AssetModel)
    ensures
        a.mint_coin > 0 ==> asset_records(a) == seq![
            LogRecordModel::Minted { name: hex_of(a.name), amount: a.mint_coin as nat },
        ],
        a.mint_coin < 0 ==> asset_records(a) == seq![
            LogRecordModel::Burned { name: hex_of(a.name), amount: (-a.mint_coin) as nat },
        ],
        a.mint_coin == 0 ==> asset_records(a) == Seq::<LogRecordModel>::empty(),
{
}

/// A transaction with no outputs and no mint groups gives its summary record
/// and nothing else.
pub proof fn lemma_bare_transaction(index: nat, t: TransactionModel)
    requires
        t.outputs.len() == 0,
        t.mint.len() == 0,
    ensures
        tx_records(index, t) == seq![tx_summary(index, t)],
{
    assert(tx_records(index, t) =~= seq![tx_summary(index, t)]);
}

/// A block with neither header nor body gives the missing-header record and
/// the timestamp, and no transaction record.
pub proof fn lemma_empty_block(b: BlockModel)
    requires
        b.header is None,
        b.body is None,
    ensures
        block_records(b) == seq![
            LogRecordModel::MissingHeader,
            LogRecordModel::Timestamp { seconds: b.timestamp },
        ],
{
    assert(block_records(b) =~= seq![
        LogRecordModel::MissingHeader,
        LogRecordModel::Timestamp { seconds: b.timestamp },
    ]);
}

} // verus!
