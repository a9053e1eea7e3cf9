//! What is kept for one key, handed out as a whole.
use crate::index_entry::RefCount;
use crate::pubkey::Pubkey;
use vstd::prelude::*;

verus! {

/// What is kept for one key.
#[verifier::ext_equal]
pub struct BucketItemModel<T> {
    pub pubkey: Pubkey,
    pub ref_count: u64,
    pub slot_list: Seq<T>,
}

/// What is kept for one key.
#[derive(Debug)]
pub struct BucketItem<T> {
    pub pubkey: Pubkey,
    pub ref_count: RefCount,
    pub slot_list: Vec<T>,
}

impl<T> View for BucketItem<T> {
    type V = BucketItemModel<T>;

    open spec fn view(&self) -> BucketItemModel<T> {
        BucketItemModel {
            pubkey: self.pubkey,
            ref_count: self.ref_count,
            slot_list: self.slot_list@,
        }
    }
}

} // verus!
