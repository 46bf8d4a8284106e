//! The metadata record kept in the store's cell.

use vstd::prelude::*;
use crate::address::Address;
use crate::traits::StoreElem;

verus! {

/// The cell's payload: a chain name, an optional owner, a 64-bit counter.
#[derive(Debug, PartialEq, Eq)]
pub struct Meta {
    pub chain_name: String,
    pub owner: Option<Address>,
    pub counter: u64,
}

/// The mathematical value of a [`Meta`] record.
#[verifier::ext_equal]
pub ghost struct MetaView {
    pub chain_name: Seq<char>,
    pub owner: Option<Seq<u8>>,
    pub counter: u64,
}

impl MetaView {
    /// The record a fresh cell defaults to.
    pub open spec fn init() -> MetaView {
        MetaView { chain_name: Seq::empty(), owner: None, counter: 0 }
    }
}

impl View for Meta {
    type V = MetaView;

    open spec fn view(&self) -> MetaView {
        MetaView {
            chain_name: self.chain_name@,
            owner: match self.owner {
                Some(a) => Some(a@),
                None => None,
            },
            counter: self.counter,
        }
    }
}

impl Default for Meta {
    fn default() -> (r: Meta)
        ensures
            r@ == MetaView::init(),
    {
        Meta { chain_name: String::new(), owner: None, counter: 0 }
    }
}

impl StoreElem for Meta {
    fn dup(&self) -> (r: Meta)
        ensures
            r@ == self@,
    {
        Meta {
            chain_name: self.chain_name.clone(),
            owner: match &self.owner {
                Some(a) => Some(a.dup()),
                None => None,
            },
            counter: self.counter,
        }
    }
}

} // verus!
