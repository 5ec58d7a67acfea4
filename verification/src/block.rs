//! The recursive block model of a parsed configuration document.

use crate::shape::Blk;
use vstd::prelude::*;

verus! {

/// One node of a configuration tree.
#[derive(Debug, PartialEq, Eq)]
pub enum Block {
    /// A named statement and the blocks nested in it.
    Statement(StatementBlock),
    /// A named resource declaration and the blocks nested in it.
    Resource(ResourceBlock),
    /// A key with its value; always a leaf.
    Property(Property),
    /// A multi-branch container.
    Case(CaseBlock),
    /// A conditional container.
    If(IfBlock),
    /// The raw guards of a branch, kept as text.
    When(Vec<String>),
    /// The raw guards of an alternate branch, kept as text.
    Elsif(Vec<String>),
    /// A block that could not be classified.
    Unknown(UnknownBlock),
}

#[derive(Debug, Clone, PartialEq, Eq)]
pub struct UnknownBlock {
    pub token1: String,
}

#[derive(Debug, PartialEq, Eq)]
pub struct StatementBlock {
    pub statement_type: String,
    pub statement_name: String,
    pub contents: Vec<Block>,
}

#[derive(Debug, PartialEq, Eq)]
pub struct ResourceBlock {
    pub resource_type: String,
    pub resource_name: String,
    pub contents: Vec<Block>,
}

#[derive(Debug, PartialEq, Eq)]
pub struct IfBlock {
    pub blocks: Vec<Block>,
    pub status: String,
}

#[derive(Debug, PartialEq, Eq)]
pub struct CaseBlock {
    pub blocks: Vec<Block>,
    pub status: String,
}

#[derive(Debug, Clone, PartialEq, Eq)]
pub struct Property {
    pub property: String,
    pub value: String,
}

/// A block as plain text and sequences.
pub enum BlockView {
    Statement { statement_type: Seq<char>, statement_name: Seq<char>, contents: Seq<BlockView> },
    Resource { resource_type: Seq<char>, resource_name: Seq<char>, contents: Seq<BlockView> },
    Property { property: Seq<char>, value: Seq<char> },
    Case { blocks: Seq<BlockView>, status: Seq<char> },
    If { blocks: Seq<BlockView>, status: Seq<char> },
    When(Seq<Seq<char>>),
    Elsif(Seq<Seq<char>>),
    Unknown { token1: Seq<char> },
}

/// The texts of `strings`, in order.
pub open spec fn text_views(strings: Seq<String>) -> Seq<Seq<char>> {
    Seq::new(strings.len(), |i: int| strings[i]@)
}

/// The views of `blocks`, in order.
pub open spec fn block_views(blocks: Seq<Block>) -> Seq<BlockView>
    decreases blocks,
{
    Seq::new(
        blocks.len(),
        |i: int|
            if 0 <= i < blocks.len() {
                blocks[i]@
            } else {
                BlockView::When(Seq::empty())
            },
    )
}

impl View for Block {
    type V = BlockView;

    open spec fn view(&self) -> BlockView
        decreases self,
    {
        match self {
            Block::Statement(statement) => BlockView::Statement {
                statement_type: statement.statement_type@,
                statement_name: statement.statement_name@,
                contents: block_views(statement.contents@),
            },
            Block::Resource(resource) => BlockView::Resource {
                resource_type: resource.resource_type@,
                resource_name: resource.resource_name@,
                contents: block_views(resource.contents@),
            },
            Block::Property(property) => BlockView::Property {
                property: property.property@,
                value: property.value@,
            },
            Block::Case(case) => BlockView::Case {
                blocks: block_views(case.blocks@),
                status: case.status@,
            },
            Block::If(branch) => BlockView::If {
                blocks: block_views(branch.blocks@),
                status: branch.status@,
            },
            Block::When(guards) => BlockView::When(text_views(guards@)),
            Block::Elsif(guards) => BlockView::Elsif(text_views(guards@)),
            Block::Unknown(unknown) => BlockView::Unknown { token1: unknown.token1@ },
        }
    }
}

impl Block {
    /// The kind by which a shape code names this block; the raw branch
    /// guards have none.
    pub open spec fn kind(self) -> Option<Blk> {
        match self {
            Block::Statement(_) => Some(Blk::Statement),
            Block::Resource(_) => Some(Blk::Resource),
            Block::Property(_) => Some(Blk::Property),
            Block::Case(_) => Some(Blk::Case),
            Block::If(_) => Some(Blk::If),
            Block::When(_) | Block::Elsif(_) => None,
            Block::Unknown(_) => Some(Blk::Unknown),
        }
    }

    /// The blocks directly inside this one, in order; none for a leaf.
    pub open spec fn children(self) -> Seq<Block> {
        match self {
            Block::Statement(statement) => statement.contents@,
            Block::Resource(resource) => resource.contents@,
            Block::Case(case) => case.blocks@,
            Block::If(branch) => branch.blocks@,
            Block::Property(_) | Block::When(_) | Block::Elsif(_) | Block::Unknown(_) => Seq::empty(),
        }
    }

    /// Reads the kind of this block.
    pub fn get_kind(&self) -> (kind: Option<Blk>)
        ensures
            kind == self.kind(),
    {
        match self {
            Block::Statement(_) => Some(Blk::Statement),
            Block::Resource(_) => Some(Blk::Resource),
            Block::Property(_) => Some(Blk::Property),
            Block::Case(_) => Some(Blk::Case),
            Block::If(_) => Some(Blk::If),
            Block::When(_) | Block::Elsif(_) => None,
            Block::Unknown(_) => Some(Blk::Unknown),
        }
    }

    /// The child blocks of a container, in order; `None` for a leaf.
    pub fn get_children(&self) -> (held: Option<&Vec<Block>>)
        ensures
            match held {
                Some(blocks) => {
                    &&& self.kind() matches Some(kind)
                    &&& kind.is_container()
                    &&& blocks@ == self.children()
                },
                None => !(self.kind() matches Some(kind) && kind.is_container()),
            },
    {
        match self {
            Block::Statement(statement) => Some(&statement.contents),
            Block::Resource(resource) => Some(&resource.contents),
            Block::Case(case) => Some(&case.blocks),
            Block::If(branch) => Some(&branch.blocks),
            Block::Property(_) | Block::When(_) | Block::Elsif(_) | Block::Unknown(_) => None,
        }
    }
}

/// The keys of the properties among `blocks`, in order. Blocks of any
/// other kind are passed over, whatever they hold.
pub open spec fn property_keys(blocks: Seq<Block>) -> Seq<Seq<char>>
    decreases blocks.len(),
{
    if blocks.len() == 0 {
        Seq::empty()
    } else {
        match blocks.last() {
            Block::Property(property) => property_keys(blocks.drop_last()).push(property.property@),
            Block::Statement(_)
            | Block::Resource(_)
            | Block::Case(_)
            | Block::If(_)
            | Block::When(_)
            | Block::Elsif(_)
            | Block::Unknown(_) => property_keys(blocks.drop_last()),
        }
    }
}

/// The keys of the properties that are direct children of a resource, in
/// order; none for a block of any other kind.
pub open spec fn direct_property_keys(block: Block) -> Seq<Seq<char>> {
    match block {
        Block::Resource(resource) => property_keys(resource.contents@),
        Block::Statement(_)
        | Block::Property(_)
        | Block::Case(_)
        | Block::If(_)
        | Block::When(_)
        | Block::Elsif(_)
        | Block::Unknown(_) => Seq::empty(),
    }
}

/// The keys of the direct properties of every block of `blocks`, block
/// after block.
pub open spec fn census_keys(blocks: Seq<Block>) -> Seq<Seq<char>>
    decreases blocks.len(),
{
    if blocks.len() == 0 {
        Seq::empty()
    } else {
        census_keys(blocks.drop_last()) + direct_property_keys(blocks.last())
    }
}

/// The properties among the first blocks are among those of all of them.
pub proof fn lemma_property_keys_prefix(blocks: Seq<Block>, n: int)
    requires
        0 <= n <= blocks.len(),
    ensures
        property_keys(blocks.take(n)).len() <= property_keys(blocks).len(),
        property_keys(blocks).len() <= blocks.len(),
    decreases blocks.len(),
{
    if blocks.len() == 0 {
        assert(blocks.take(n) =~= blocks);
    } else if n == blocks.len() {
        assert(blocks.take(n) =~= blocks);
        lemma_property_keys_prefix(blocks.drop_last(), n - 1);
    } else {
        assert(blocks.drop_last().take(n) =~= blocks.take(n));
        lemma_property_keys_prefix(blocks.drop_last(), n);
    }
}

/// Blocks that read alike hold the same properties.
pub proof fn lemma_property_keys_by_view(first: Seq<Block>, second: Seq<Block>)
    requires
        block_views(first) == block_views(second),
    ensures
        property_keys(first) == property_keys(second),
    decreases first.len(),
{
    assert(block_views(first).len() == first.len());
    assert(block_views(second).len() == second.len());
    if first.len() > 0 {
        let last = first.len() - 1;
        assert(block_views(first)[last] == first[last]@);
        assert(block_views(second)[last] == second[last]@);
        assert(block_views(first.drop_last()) =~= block_views(second.drop_last())) by {
            assert forall|i: int| 0 <= i < last implies block_views(first.drop_last())[i]
                == block_views(second.drop_last())[i] by {
                assert(block_views(first)[i] == first[i]@);
                assert(block_views(second)[i] == second[i]@);
            }
        }
        lemma_property_keys_by_view(first.drop_last(), second.drop_last());
    }
}

/// A block and one that reads like it, such as its clone, add the same
/// names to a census.
pub proof fn lemma_direct_property_keys_by_view(first: Block, second: Block)
    requires
        first@ == second@,
    ensures
        direct_property_keys(first) == direct_property_keys(second),
{
    if let Block::Resource(a) = first {
        if let Block::Resource(b) = second {
            lemma_property_keys_by_view(a.contents@, b.contents@);
        }
    }
}

/// Documents that read alike add the same names to a census, in the same
/// order.
pub proof fn lemma_census_keys_by_view(first: Seq<Block>, second: Seq<Block>)
    requires
        block_views(first) == block_views(second),
    ensures
        census_keys(first) == census_keys(second),
    decreases first.len(),
{
    assert(block_views(first).len() == first.len());
    assert(block_views(second).len() == second.len());
    if first.len() > 0 {
        let last = first.len() - 1;
        assert(block_views(first)[last] == first[last]@);
        assert(block_views(second)[last] == second[last]@);
        lemma_direct_property_keys_by_view(first[last], second[last]);
        assert(block_views(first.drop_last()) =~= block_views(second.drop_last())) by {
            assert forall|i: int| 0 <= i < last implies block_views(first.drop_last())[i]
                == block_views(second.drop_last())[i] by {
                assert(block_views(first)[i] == first[i]@);
                assert(block_views(second)[i] == second[i]@);
            }
        }
        lemma_census_keys_by_view(first.drop_last(), second.drop_last());
    }
}

/// The direct properties of the first blocks are among those of all of
/// them.
pub proof fn lemma_census_keys_prefix(blocks: Seq<Block>, n: int)
    requires
        0 <= n <= blocks.len(),
    ensures
        census_keys(blocks.take(n)).len() <= census_keys(blocks).len(),
    decreases blocks.len(),
{
    if blocks.len() == 0 || n == blocks.len() {
        assert(blocks.take(n) =~= blocks);
    } else {
        assert(blocks.drop_last().take(n) =~= blocks.take(n));
        lemma_census_keys_prefix(blocks.drop_last(), n);
    }
}

impl Block {
    /// The number of properties that are direct children of this block,
    /// where it is a resource; zero for any other block.
    pub fn direct_property_count(&self) -> (n: usize)
        ensures
            n == direct_property_keys(*self).len(),
    {
        match self {
            Block::Resource(resource) => {
                let len = resource.contents.len();
                let mut n: usize = 0;
                let mut i: usize = 0;
                while i < len
                    invariant
                        len == resource.contents@.len(),
                        i <= len,
                        n == property_keys(resource.contents@.take(i as int)).len(),
                        n <= i,
                    decreases len - i,
                {
                    proof {
                        assert(resource.contents@.take(i + 1).drop_last() =~= resource.contents@.take(
                            i as int,
                        ));
                    }
                    match &resource.contents[i] {
                        Block::Property(_) => {
                            n += 1;
                        },
                        Block::Statement(_)
                        | Block::Resource(_)
                        | Block::Case(_)
                        | Block::If(_)
                        | Block::When(_)
                        | Block::Elsif(_)
                        | Block::Unknown(_) => {},
                    }
                    i += 1;
                }
                proof {
                    assert(resource.contents@.take(len as int) =~= resource.contents@);
                }
                n
            },
            Block::Statement(_)
            | Block::Property(_)
            | Block::Case(_)
            | Block::If(_)
            | Block::When(_)
            | Block::Elsif(_)
            | Block::Unknown(_) => 0,
        }
    }
}

/// A copy of `strings`, text by text.
fn clone_texts(strings: &Vec<String>) -> (copies: Vec<String>)
    ensures
        text_views(copies@) == text_views(strings@),
{
    let n = strings.len();
    let mut copies: Vec<String> = Vec::new();
    let mut i: usize = 0;
    while i < n
        invariant
            n == strings@.len(),
            i <= n,
            copies@.len() == i,
            forall|k: int| 0 <= k < i ==> (#[trigger] copies@[k])@ == strings@[k]@,
        decreases n - i,
    {
        copies.push(strings[i].clone());
        i += 1;
    }
    proof {
        assert(text_views(copies@) =~= text_views(strings@));
    }
    copies
}

/// A copy of `blocks`, block by block.
fn clone_blocks(blocks: &Vec<Block>) -> (copies: Vec<Block>)
    ensures
        block_views(copies@) == block_views(blocks@),
    decreases blocks,
{
    let n = blocks.len();
    let mut copies: Vec<Block> = Vec::new();
    let mut i: usize = 0;
    while i < n
        invariant
            n == blocks@.len(),
            i <= n,
            copies@.len() == i,
            forall|k: int| 0 <= k < i ==> (#[trigger] copies@[k])@ == blocks@[k]@,
        decreases n - i,
    {
        copies.push(blocks[i].clone());
        i += 1;
    }
    proof {
        assert(block_views(copies@) =~= block_views(blocks@));
    }
    copies
}

impl Clone for Block {
    /// A copy that holds the same texts and blocks in the same places.
    fn clone(&self) -> (copy: Self)
        ensures
            copy@ == self@,
        decreases self,
    {
        match self {
            Block::Statement(statement) => Block::Statement(
                StatementBlock {
                    statement_type: statement.statement_type.clone(),
                    statement_name: statement.statement_name.clone(),
                    contents: clone_blocks(&statement.contents),
                },
            ),
            Block::Resource(resource) => Block::Resource(
                ResourceBlock {
                    resource_type: resource.resource_type.clone(),
                    resource_name: resource.resource_name.clone(),
                    contents: clone_blocks(&resource.contents),
                },
            ),
            Block::Property(property) => Block::Property(
                Property { property: property.property.clone(), value: property.value.clone() },
            ),
            Block::Case(case) => Block::Case(
                CaseBlock { blocks: clone_blocks(&case.blocks), status: case.status.clone() },
            ),
            Block::If(branch) => Block::If(
                IfBlock { blocks: clone_blocks(&branch.blocks), status: branch.status.clone() },
            ),
            Block::When(guards) => Block::When(clone_texts(guards)),
            Block::Elsif(guards) => Block::Elsif(clone_texts(guards)),
            Block::Unknown(unknown) => Block::Unknown(
                UnknownBlock { token1: unknown.token1.clone() },
            ),
        }
    }
}

impl Clone for StatementBlock {
    fn clone(&self) -> (copy: Self)
        ensures
            Block::Statement(copy)@ == Block::Statement(*self)@,
    {
        StatementBlock {
            statement_type: self.statement_type.clone(),
            statement_name: self.statement_name.clone(),
            contents: clone_blocks(&self.contents),
        }
    }
}

impl Clone for ResourceBlock {
    fn clone(&self) -> (copy: Self)
        ensures
            Block::Resource(copy)@ == Block::Resource(*self)@,
    {
        ResourceBlock {
            resource_type: self.resource_type.clone(),
            resource_name: self.resource_name.clone(),
            contents: clone_blocks(&self.contents),
        }
    }
}

impl Clone for IfBlock {
    fn clone(&self) -> (copy: Self)
        ensures
            Block::If(copy)@ == Block::If(*self)@,
    {
        IfBlock { blocks: clone_blocks(&self.blocks), status: self.status.clone() }
    }
}

impl Clone for CaseBlock {
    fn clone(&self) -> (copy: Self)
        ensures
            Block::Case(copy)@ == Block::Case(*self)@,
    {
        CaseBlock { blocks: clone_blocks(&self.blocks), status: self.status.clone() }
    }
}

} // verus!
