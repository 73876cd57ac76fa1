use crate::block::BlockType;
use crate::query::{
    BlockInfo, Cacheability, CacheableField, Context, GenericQuery, Policy, Query,
};
use crate::relative_pos::RelativePos;
use crate::unique_descrip::UniqueDescrip;
use vstd::prelude::*;

verus! {

/// The query that asks for the type of a block.
#[derive(Debug)]
pub struct GetBlockType {}

impl GetBlockType {
    pub fn new() -> (query: GetBlockType)
        ensures
            query == (GetBlockType {  }),
    {
        GetBlockType {  }
    }
}

impl Default for GetBlockType {
    fn default() -> (query: GetBlockType)
        ensures
            query == (GetBlockType {  }),
    {
        GetBlockType::new()
    }
}

impl Clone for GetBlockType {
    fn clone(&self) -> (query: GetBlockType)
        ensures
            query == *self,
    {
        GetBlockType {  }
    }
}

impl UniqueDescrip for GetBlockType {
    fn unique_descrip(&self) -> (descrip: String)
        ensures
            descrip@ == "GetBlockType"@,
    {
        "GetBlockType".to_owned()
    }
}

impl GenericQuery for GetBlockType {
    /// The answer holds until the block type of the cell that was asked about is written.
    fn cacheability(&self) -> (cacheability: Cacheability)
        ensures
            cacheability@ == (Policy::UntilChangeInSelf {
                fields: seq![CacheableField::CacheableBlockType],
            }),
    {
        let mut fields: Vec<CacheableField> = Vec::new();
        fields.push(CacheableField::CacheableBlockType);
        assert(fields@ =~= seq![CacheableField::CacheableBlockType]);
        Cacheability::UntilChangeInSelf { fields }
    }
}

impl<C: Context> Query<BlockType, C> for GetBlockType {
    /// The block type that the context shows at `pos`.
    fn eval(&self, n: &C, pos: RelativePos) -> (block_type: BlockType)
        ensures
            call_ensures(C::get_block, (n, pos), BlockInfo { block_type }),
    {
        n.get_block(pos).block_type
    }
}

} // verus!
