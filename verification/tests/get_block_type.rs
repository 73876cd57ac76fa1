use lotsa::block::{unknown, BlockType};
use lotsa::query::{
    BlockInfo, Cacheability, CacheableField, Context, GenericQuery, GetBlockType, Query,
};
use lotsa::relative_pos::RelativePos;
use lotsa::unique_descrip::UniqueDescrip;

pub const COBBLE: BlockType = BlockType(37);

pub struct TestContext {}

impl Context for TestContext {
    fn get_block(&self, pos: RelativePos) -> BlockInfo {
        if pos.x == 0 && pos.y == 0 && pos.z == 0 {
            BlockInfo { block_type: COBBLE }
        } else {
            BlockInfo {
                block_type: unknown(),
            }
        }
    }
}

#[test]
fn test_get_block_type() {
    let context = TestContext {};
    let origin = RelativePos::new(0, 0, 0);
    let west = RelativePos::new(-1, 0, 0);

    let get_block_type = GetBlockType::new();

    assert_eq!(get_block_type.eval(&context, origin), COBBLE);
    assert_eq!(get_block_type.eval(&context, west), unknown());
}

#[test]
fn get_block_type_holds_until_the_block_itself_changes() {
    let query = GetBlockType::new();
    assert_eq!(
        query.cacheability(),
        Cacheability::UntilChangeInSelf { fields: vec![CacheableField::CacheableBlockType] }
    );
    assert_eq!(query.unique_descrip(), "GetBlockType");
    assert_eq!(GetBlockType::default().unique_descrip(), query.clone().unique_descrip());
}

#[test]
fn block_info_gives_its_block_type() {
    let info = BlockInfo { block_type: COBBLE };
    assert_eq!(info.block_type(), BlockType(37));
}
