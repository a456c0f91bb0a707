use vstd::prelude::*;
use vstd::string::StringSliceAdditionalSpecFns;

verus! {

/// Order identifier, assigned by the engine in increasing order.
pub type OrderId = u64;

/// Price in minor currency units (for example cents).
pub type Price = u32;

/// Order size.
pub type Quantity = u32;

/// Fixed-width (eight byte) trader identifier.
#[derive(Debug, Clone, Copy, PartialEq, Eq, Hash)]
pub struct TraderId(pub [u8; 8]);

/// The bytes of `s`, cut or padded with zeros to eight.
pub open spec fn padded8(s: Seq<u8>) -> Seq<u8> {
    Seq::new(8, |i: int| if i < s.len() { s[i] } else { 0u8 })
}

impl TraderId {
    /// Identifier made of the given bytes.
    pub fn new(bytes: [u8; 8]) -> (r: Self)
        ensures
            r.0@ == bytes@,
    {
        TraderId(bytes)
    }

    /// Identifier made of the first eight UTF-8 bytes of `s`, padded with zeros.
    pub fn from_str(s: &str) -> (r: Self)
        ensures
            r.0@ == padded8(s.spec_bytes()),
    {
        let b = s.as_bytes();
        let mut bytes = [0u8; 8];
        let mut i: usize = 0;
        while i < 8 && i < b.len()
            invariant
                i <= 8,
                b@ == s.spec_bytes(),
                forall|j: int| 0 <= j < 8 ==> #[trigger] bytes@[j] == (if j < i && j < b@.len() {
                    b@[j]
                } else {
                    0u8
                }),
            decreases 8 - i,
        {
            bytes[i] = b[i];
            i = i + 1;
        }
        let r = TraderId(bytes);
        assert(r.0@ =~= padded8(s.spec_bytes()));
        r
    }

    /// The identifier's bytes.
    pub fn as_bytes(&self) -> (r: &[u8; 8])
        ensures
            r@ == self.0@,
    {
        &self.0
    }
}

/// Side of an order.
#[derive(Debug, Clone, Copy, PartialEq, Eq, Structural)]
pub enum Side {
    Buy,
    Sell,
}

impl Side {
    /// The other side, in specifications.
    pub open spec fn spec_opposite(self) -> Side {
        match self {
            Side::Buy => Side::Sell,
            Side::Sell => Side::Buy,
        }
    }

    /// The other side.
    pub fn opposite(&self) -> (r: Side)
        ensures
            r == self.spec_opposite(),
            r != *self,
    {
        match self {
            Side::Buy => Side::Sell,
            Side::Sell => Side::Buy,
        }
    }
}

/// One matched fill between a buyer and a seller.
#[derive(Debug, Clone, Copy)]
pub struct Trade {
    pub buyer: TraderId,
    pub seller: TraderId,
    pub price: Price,
    pub quantity: Quantity,
}

impl Trade {
    /// A trade record with the given fields.
    pub fn new(buyer: TraderId, seller: TraderId, price: Price, quantity: Quantity) -> (r: Self)
        ensures
            r == (Trade { buyer, seller, price, quantity }),
    {
        Trade { buyer, seller, price, quantity }
    }
}

/// An order record held in an arena slot. A quantity of zero marks the
/// slot as dead (filled or cancelled); `next_idx` links the slot to the
/// next order resting at the same price.
#[derive(Debug, Clone, Copy)]
pub struct OrderEntry {
    pub order_id: OrderId,
    pub trader: TraderId,
    pub quantity: Quantity,
    pub next_idx: Option<usize>,
}

impl OrderEntry {
    /// A fresh, unlinked entry.
    pub fn new(order_id: OrderId, trader: TraderId, quantity: Quantity) -> (r: Self)
        ensures
            r == (OrderEntry { order_id, trader, quantity, next_idx: None }),
    {
        OrderEntry { order_id, trader, quantity, next_idx: None }
    }

    /// Whether the order still has quantity left.
    pub fn is_active(&self) -> (r: bool)
        ensures
            r == (self.quantity > 0),
    {
        self.quantity > 0
    }

    /// Marks the order dead by zeroing its quantity.
    pub fn cancel(&mut self)
        ensures
            *final(self) == (OrderEntry { quantity: 0, ..*old(self) }),
    {
        self.quantity = 0;
    }
}

/// Head and tail slot of the FIFO queue of orders resting at one price.
#[derive(Debug, Clone, Copy)]
pub struct PricePoint {
    pub first_order_idx: Option<usize>,
    pub last_order_idx: Option<usize>,
}

impl Default for PricePoint {
    fn default() -> (r: Self)
        ensures
            r.first_order_idx.is_none(),
            r.last_order_idx.is_none(),
    {
        PricePoint { first_order_idx: None, last_order_idx: None }
    }
}

impl PricePoint {
    /// An empty price level.
    pub fn empty() -> (r: Self)
        ensures
            r.first_order_idx.is_none(),
            r.last_order_idx.is_none(),
    {
        PricePoint { first_order_idx: None, last_order_idx: None }
    }

    /// Whether no order is linked at this price.
    pub fn is_empty(&self) -> (r: bool)
        ensures
            r == self.first_order_idx.is_none(),
    {
        self.first_order_idx.is_none()
    }

    /// Makes `idx` the tail of the queue (and its head when the queue was
    /// empty). The caller links the previous tail's `next_idx` to `idx`
    /// before calling this.
    pub fn push_back(&mut self, idx: usize)
        ensures
            final(self).last_order_idx == Some(idx),
            final(self).first_order_idx == (if old(self).last_order_idx.is_none() {
                Some(idx)
            } else {
                old(self).first_order_idx
            }),
    {
        match self.last_order_idx {
            None => {
                self.first_order_idx = Some(idx);
                self.last_order_idx = Some(idx);
            },
            Some(_) => {
                self.last_order_idx = Some(idx);
            },
        }
    }
}

} // verus!
