use vstd::prelude::*;
use vstd::utf8::encode_utf8;
use vstd::bytes::{spec_u64_to_le_bytes, u64_to_le_bytes};
use crate::hashing::{sha256_hex, hex_digest, is_lower_hex};
use crate::simple_transaction::SimpleTransaction;

verus! {

/// The nonce of the genesis block, found for a difficulty of five zeros.
pub const GENESIS_NONCE: u64 = 1293653;

/// What a block holds, as plain values.
pub struct BlockView {
    pub tx: Seq<char>,
    pub prev: Option<Seq<char>>,
    pub nonce: u64,
    pub index: u64,
}

/// The genesis block: empty transaction, no parent, height zero.
pub open spec fn genesis_view() -> BlockView {
    BlockView { tx: Seq::empty(), prev: None, nonce: GENESIS_NONCE, index: 0 }
}

/// The bytes that are hashed: the transaction's UTF-8 bytes, the nonce in
/// little-endian order, then the parent hash's UTF-8 bytes when there is one.
pub open spec fn block_bytes(b: BlockView) -> Seq<u8> {
    encode_utf8(b.tx) + spec_u64_to_le_bytes(b.nonce) + match b.prev {
        Some(p) => encode_utf8(p),
        None => Seq::<u8>::empty(),
    }
}

/// The hash of a block: hex SHA-256 of its bytes.
pub open spec fn block_hash(b: BlockView) -> Seq<char> {
    sha256_hex(block_bytes(b))
}

/// `h` starts with `difficulty` zero digits.
pub open spec fn has_zero_prefix(h: Seq<char>, difficulty: nat) -> bool {
    difficulty <= h.len() && forall|i: int| 0 <= i < difficulty ==> h[i] == '0'
}

/// `child` is a valid successor of `parent`: it names the parent's hash and
/// sits one height above it.
pub open spec fn links(parent: BlockView, child: BlockView) -> bool {
    child.prev == Some(block_hash(parent)) && child.index == parent.index + 1
}

/// The block built on `parent` for `tx`, before any nonce search.
pub open spec fn child_view(tx: Seq<char>, parent: BlockView) -> BlockView {
    BlockView { tx, prev: Some(block_hash(parent)), nonce: 0, index: (parent.index + 1) as u64 }
}

/// One block of a chain: a transaction, the hash of its parent (absent only
/// for the genesis block), a nonce and a height.
#[derive(Clone)]
pub struct Block {
    transactions: SimpleTransaction,
    previous_hash: Option<String>,
    nonce: u64,
    index_in_chain: u64,
}

impl View for Block {
    type V = BlockView;

    closed spec fn view(&self) -> BlockView {
        BlockView {
            tx: self.transactions@,
            prev: match self.previous_hash {
                Some(p) => Some(p@),
                None => None,
            },
            nonce: self.nonce,
            index: self.index_in_chain,
        }
    }
}

fn copy_hash(h: &Option<String>) -> (r: Option<String>)
    ensures
        r.is_some() == h.is_some(),
        r.is_some() ==> r.unwrap()@ == h.unwrap()@,
{
    match h {
        Some(s) => Some(s.clone()),
        None => None,
    }
}

impl Block {
    /// The genesis block, identical on every node.
    pub fn genesis() -> (r: Self)
        ensures
            r@ == genesis_view(),
    {
        let r = Block {
            transactions: SimpleTransaction::from_str(""),
            nonce: GENESIS_NONCE,
            index_in_chain: 0,
            previous_hash: None,
        };
        proof {
            reveal_strlit("");
        }
        assert(r@.tx =~= Seq::<char>::empty());
        r
    }

    /// A block built from its four fields.
    pub fn from_parts(
        transaction: SimpleTransaction,
        previous_hash: Option<String>,
        nonce: u64,
        index_in_chain: u64,
    ) -> (r: Self)
        ensures
            r@.tx == transaction@,
            r@.prev == (match previous_hash {
                Some(p) => Some(p@),
                None => None::<Seq<char>>,
            }),
            r@.nonce == nonce,
            r@.index == index_in_chain,
    {
        Block { transactions: transaction, previous_hash, nonce, index_in_chain }
    }

    /// A new block for `data`, placed right after `previous`, with nonce zero.
    pub fn new_after_block(data: SimpleTransaction, previous: &Block) -> (r: Self)
        requires
            previous@.index < u64::MAX,
        ensures
            r@ == child_view(data@, previous@),
    {
        Block {
            transactions: data,
            previous_hash: Some(previous.hash()),
            nonce: 0,
            index_in_chain: previous.index_in_chain + 1,
        }
    }

    /// Sets the nonce; the other fields stay.
    pub fn set_nonce(&mut self, nonce: u64)
        ensures
            final(self)@ == (BlockView { nonce, ..old(self)@ }),
    {
        self.nonce = nonce;
    }

    /// Sets the parent hash; the other fields stay.
    pub fn set_previous_hash(&mut self, previous_hash: String)
        ensures
            final(self)@ == (BlockView { prev: Some(previous_hash@), ..old(self)@ }),
    {
        self.previous_hash = Some(previous_hash);
    }

    /// A copy of the parent hash, if any.
    pub fn previous_hash(&self) -> (r: Option<String>)
        ensures
            r.is_some() == self@.prev.is_some(),
            r.is_some() ==> self@.prev == Some(r.unwrap()@),
    {
        copy_hash(&self.previous_hash)
    }

    /// The hex SHA-256 of `bytes()`.
    pub fn hash(&self) -> (r: String)
        ensures
            r@ == block_hash(self@),
            r@.len() == 64,
            forall|i: int| 0 <= i < r@.len() ==> is_lower_hex(#[trigger] r@[i]),
    {
        let data = self.bytes();
        hex_digest(&data)
    }

    /// The block's hash starts with `difficulty` zero digits.
    pub fn is_hash_valid(&self, difficulty: usize) -> (r: bool)
        ensures
            r == has_zero_prefix(block_hash(self@), difficulty as nat),
    {
        let h = self.hash();
        starts_with_zeros(&h, difficulty)
    }

    /// The bytes that the hash covers.
    pub fn bytes(&self) -> (r: Vec<u8>)
        ensures
            r@ == block_bytes(self@),
    {
        let mut bytes = self.transactions.to_bytes();
        let mut nonce_bytes = u64_to_le_bytes(self.nonce);
        bytes.append(&mut nonce_bytes);
        match &self.previous_hash {
            Some(h) => {
                bytes.extend_from_slice(h.as_str().as_bytes());
            },
            None => {},
        }
        assert(bytes@ =~= block_bytes(self@));
        bytes
    }

    /// The block's transaction.
    pub fn transactions(&self) -> (r: &SimpleTransaction)
        ensures
            r@ == self@.tx,
    {
        &self.transactions
    }

    /// The nonce.
    pub fn nonce(&self) -> (r: u64)
        ensures
            r == self@.nonce,
    {
        self.nonce
    }

    /// The height: zero for genesis, parent's height plus one otherwise.
    pub fn index_in_chain(&self) -> (r: u64)
        ensures
            r == self@.index,
    {
        self.index_in_chain
    }

    /// A copy of this block.
    pub fn duplicate(&self) -> (r: Self)
        ensures
            r@ == self@,
    {
        Block {
            transactions: self.transactions.duplicate(),
            previous_hash: copy_hash(&self.previous_hash),
            nonce: self.nonce,
            index_in_chain: self.index_in_chain,
        }
    }

    /// The two blocks hold the same four fields.
    pub fn same_as(&self, other: &Block) -> (r: bool)
        ensures
            r == (self@ == other@),
    {
        if self.nonce != other.nonce || self.index_in_chain != other.index_in_chain {
            return false;
        }
        if !(self.transactions == other.transactions) {
            return false;
        }
        match (&self.previous_hash, &other.previous_hash) {
            (Some(a), Some(b)) => *a == *b,
            (None, None) => true,
            _ => false,
        }
    }
}

/// `h` starts with `n` characters `'0'`; `h` is a lowercase hex string.
pub(crate) fn starts_with_zeros(h: &String, n: usize) -> (r: bool)
    requires
        forall|i: int| 0 <= i < h@.len() ==> is_lower_hex(#[trigger] h@[i]),
    ensures
        r == has_zero_prefix(h@, n as nat),
{
    let bytes = h.as_str().as_bytes();
    proof {
        assert(vstd::utf8::is_ascii_chars(h@)) by {
            assert forall|i: int| 0 <= i < h@.len() implies '\0' <= #[trigger] h@[i] <= '\u{7f}' by {
                assert(is_lower_hex(h@[i]));
            }
        }
        vstd::utf8::is_ascii_chars_encode_utf8(h@);
    }
    if n > bytes.len() {
        return false;
    }
    let mut i: usize = 0;
    while i < n
        invariant
            n <= bytes@.len() == h@.len(),
            i <= n,
            bytes@ == encode_utf8(h@),
            forall|k: int| 0 <= k < h@.len() ==> h@[k] as u8 == encode_utf8(h@)[k],
            forall|k: int| 0 <= k < h@.len() ==> is_lower_hex(#[trigger] h@[k]),
            forall|k: int| 0 <= k < i ==> h@[k] == '0',
        decreases n - i,
    {
        if bytes[i] != 48u8 {
            assert(h@[i as int] as u8 != 48u8);
            return false;
        }
        assert(is_lower_hex(h@[i as int]));
        i = i + 1;
    }
    true
}

} // verus!
