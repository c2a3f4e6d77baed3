//! Reading a DynamoDB stream: how it is described, its shard graph, and one
//! round of reading a shard.

pub mod describe;
pub mod graph;
pub mod reader;
