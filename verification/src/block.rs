//! Blocks: an ordered batch of transfers under a header that commits to them, to the
//! previous block and to the ledger state after them.
use vstd::prelude::*;

use crate::hash::{
    encode_header_fields, hash_canonical_bytes, header_encoding, lemma_varint_read, sha256,
    sha256_digest, varint, varint_read, HashedId,
};
use crate::transaction::{Transaction, TransactionView};

verus! {

/// A block header.
#[derive(Debug, Clone, Copy, PartialEq, Eq)]
pub struct BlockHeader {
    /// The block's index in the chain.
    pub height: u64,
    /// The hash of the previous block's header (zeros for the first block).
    pub previous_hash: [u8; 32],
    /// The commitment to the block's transfers, in order.
    pub transaction_commitment: [u8; 32],
    /// The state commitment of the ledger after all of the block's transfers.
    pub state_commitment: [u8; 32],
}

/// A block: a header and the ordered transfers it commits to.
#[derive(Debug, Clone, PartialEq, Eq)]
pub struct Block {
    pub header: BlockHeader,
    pub transactions: Vec<Transaction>,
}

/// The transfers of a sequence, taken by their views.
pub open spec fn transaction_views(transactions: Seq<Transaction>) -> Seq<TransactionView> {
    transactions.map_values(|t: Transaction| t@)
}

/// The ids of a sequence of transfers, concatenated in order.
pub open spec fn concatenated_ids(transactions: Seq<TransactionView>) -> Seq<u8>
    decreases transactions.len(),
{
    if transactions.len() == 0 {
        Seq::empty()
    } else {
        concatenated_ids(transactions.drop_last()) + transactions.last().id()
    }
}

/// The commitment to an ordered sequence of transfers: SHA-256 of their ids concatenated.
pub open spec fn transactions_commitment(transactions: Seq<TransactionView>) -> Seq<u8> {
    sha256(concatenated_ids(transactions))
}

/// The hash of a header: SHA-256 of its canonical encoding.
pub open spec fn header_hash(header: BlockHeader) -> Seq<u8> {
    sha256(
        header_encoding(
            header.height,
            header.previous_hash@,
            header.transaction_commitment@,
            header.state_commitment@,
        ),
    )
}

/// The ids of a sequence of transfers concatenated in order are vstd's flattening of the
/// sequence of ids.
proof fn lemma_concatenated_ids_flatten(transactions: Seq<TransactionView>)
    ensures
        concatenated_ids(transactions) == transactions.map_values(
            |t: TransactionView| t.id(),
        ).flatten(),
    decreases transactions.len(),
{
    let ids = transactions.map_values(|t: TransactionView| t.id());
    if transactions.len() > 0 {
        lemma_concatenated_ids_flatten(transactions.drop_last());
        assert(transactions.drop_last().map_values(|t: TransactionView| t.id()) =~= ids.drop_last());
        ids.lemma_flatten_and_flatten_alt_are_equivalent();
        ids.drop_last().lemma_flatten_and_flatten_alt_are_equivalent();
    } else {
        assert(ids =~= Seq::<Seq<u8>>::empty());
    }
}

proof fn lemma_concatenated_ids_len(transactions: Seq<TransactionView>)
    requires
        forall|i: int| 0 <= i < transactions.len() ==> (#[trigger] transactions[i].id()).len() == 32,
    ensures
        concatenated_ids(transactions).len() == 32 * transactions.len(),
    decreases transactions.len(),
{
    if transactions.len() > 0 {
        let d = transactions.drop_last();
        assert forall|i: int| 0 <= i < d.len() implies (#[trigger] d[i].id()).len() == 32 by {
            assert(d[i] == transactions[i]);
        }
        lemma_concatenated_ids_len(d);
        assert(transactions.last().id() == transactions[transactions.len() - 1].id());
    }
}

/// The transaction commitment hashes the ids of the transfers, each once and in order,
/// whatever their number: SHA-256 of the ids flattened into one byte string, which holds
/// 32 bytes per transfer where each id is a 32-byte digest.
pub proof fn lemma_transactions_commitment_hashes_ids(transactions: Seq<TransactionView>)
    ensures
        transactions_commitment(transactions) == sha256(
            transactions.map_values(|t: TransactionView| t.id()).flatten(),
        ),
        (forall|i: int| 0 <= i < transactions.len() ==> (#[trigger] transactions[i].id()).len() == 32)
            ==> concatenated_ids(transactions).len() == 32 * transactions.len(),
{
    lemma_concatenated_ids_flatten(transactions);
    if forall|i: int| 0 <= i < transactions.len() ==> (#[trigger] transactions[i].id()).len() == 32 {
        lemma_concatenated_ids_len(transactions);
    }
}

/// A header's hash is SHA-256 of bytes from which the header reads back whole: the full
/// height first, as a varint, then the previous hash, the transaction commitment and the
/// state commitment, byte for byte.
pub proof fn lemma_header_hash_encodes_header(header: BlockHeader)
    ensures
        ({
            let bytes = header_encoding(
                header.height,
                header.previous_hash@,
                header.transaction_commitment@,
                header.state_commitment@,
            );
            let width = varint(header.height).len();
            &&& header_hash(header) == sha256(bytes)
            &&& varint_read(bytes) == Some((header.height as nat, width))
            &&& bytes.skip(width as int) == header.previous_hash@ + header.transaction_commitment@
                + header.state_commitment@
        }),
{
    let rest = header.previous_hash@ + header.transaction_commitment@ + header.state_commitment@;
    lemma_varint_read(header.height, rest);
    assert(header_encoding(
        header.height,
        header.previous_hash@,
        header.transaction_commitment@,
        header.state_commitment@,
    ) =~= varint(header.height) + rest);
}

/// Headers that differ in any field are hashed from different bytes: the encoding a header's
/// hash is taken of determines the header's height and its three digests.
pub proof fn lemma_header_encoding_injective(a: BlockHeader, b: BlockHeader)
    requires
        header_encoding(a.height, a.previous_hash@, a.transaction_commitment@, a.state_commitment@)
            == header_encoding(
            b.height,
            b.previous_hash@,
            b.transaction_commitment@,
            b.state_commitment@,
        ),
    ensures
        a.height == b.height,
        a.previous_hash@ == b.previous_hash@,
        a.transaction_commitment@ == b.transaction_commitment@,
        a.state_commitment@ == b.state_commitment@,
{
    lemma_header_hash_encodes_header(a);
    lemma_header_hash_encodes_header(b);
    let ra = a.previous_hash@ + a.transaction_commitment@ + a.state_commitment@;
    let rb = b.previous_hash@ + b.transaction_commitment@ + b.state_commitment@;
    assert(ra == rb);
    assert(a.previous_hash@ =~= ra.subrange(0, 32));
    assert(b.previous_hash@ =~= rb.subrange(0, 32));
    assert(a.transaction_commitment@ =~= ra.subrange(32, 64));
    assert(b.transaction_commitment@ =~= rb.subrange(32, 64));
    assert(a.state_commitment@ =~= ra.subrange(64, 96));
    assert(b.state_commitment@ =~= rb.subrange(64, 96));
}

impl Block {
    /// The commitment to an ordered list of transfers: SHA-256 of their ids concatenated.
    pub fn transaction_commitment(transactions: &[Transaction]) -> (commitment: [u8; 32])
        ensures
            commitment@ == transactions_commitment(transaction_views(transactions@)),
    {
        let ghost views = transaction_views(transactions@);
        let mut bytes: Vec<u8> = Vec::new();
        let mut i: usize = 0;
        while i < transactions.len()
            invariant
                views == transaction_views(transactions@),
                i <= transactions@.len(),
                bytes@ == concatenated_ids(views.take(i as int)),
            decreases transactions@.len() - i,
        {
            let id = transactions[i].hash_id();
            let digest = id.as_bytes();
            let ghost before = bytes@;
            let mut j: usize = 0;
            while j < 32
                invariant
                    j <= 32,
                    digest@.len() == 32,
                    bytes@ == before + digest@.take(j as int),
                decreases 32 - j,
            {
                bytes.push(digest[j]);
                assert(digest@.take(j + 1) =~= digest@.take(j as int).push(digest@[j as int]));
                j = j + 1;
            }
            assert(digest@.take(32) =~= digest@);
            assert(views.take(i + 1).drop_last() =~= views.take(i as int));
            i = i + 1;
        }
        assert(views.take(i as int) =~= views);
        sha256_digest(bytes.as_slice())
    }

    /// The hash of the block's header.
    pub fn hash(&self) -> (id: HashedId)
        ensures
            id.0@ == header_hash(self.header),
    {
        match encode_header_fields(
            self.header.height,
            &self.header.previous_hash,
            &self.header.transaction_commitment,
            &self.header.state_commitment,
        ) {
            Ok(bytes) => hash_canonical_bytes(bytes.as_slice()),
            Err(_) => HashedId([0u8; 32]),
        }
    }
}

} // verus!
