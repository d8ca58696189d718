//! A verified core for a code search engine: posting-list compression,
//! top-k retrieval, spelling correction, repository chunking and the file
//! formats and decisions around them.

pub mod bench;
pub mod block_max_wand;
pub mod bm25;
pub mod chunk;
pub mod cli;
pub mod codec;
pub mod codeindex;
pub mod compress;
pub mod coreml;
pub mod daemon;
pub mod doc_comment;
pub mod embcache;
pub mod embedder;
pub mod embeddings;
pub mod eval;
pub mod external;
pub mod grammar;
pub mod hash;
pub mod hnsw;
pub mod hybrid;
pub mod ignore;
pub mod indexer;
pub mod interner;
pub mod ivf;
pub mod json;
pub mod logarithm;
pub mod lookup;
pub mod maxscore;
pub mod mcp;
pub mod migrate;
pub mod order;
pub mod paths;
pub mod postings;
pub mod pq;
pub mod query;
pub mod reorder;
pub mod repo;
pub mod searcher;
pub mod segments;
pub mod spell;
pub mod sums;
pub mod table;
pub mod text;
pub mod vectors;
pub mod work;
