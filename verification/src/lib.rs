pub mod allowlist;
pub mod bitmap;
pub mod bytes;
pub mod cells;
pub mod chain;
pub mod codec;
pub mod float_bits;
pub mod flush;
pub mod flush_laws;
pub mod flush_write;
pub mod graph;
pub mod knn;
pub mod layout_laws;
pub mod live_rows;
pub mod load;
pub mod normalize;
pub mod page;
pub mod partition;
pub mod phase2_knn;
pub mod read_laws;
pub mod reads;
pub mod relfile;
pub mod relfile_laws;
pub mod request_laws;
pub mod scan;
pub mod scan_laws;
pub mod scan_load;
pub mod sorting;
pub mod sparsevec;
pub mod sparsevec_ops;
pub mod split_write;
pub mod text;
pub mod text_laws;
pub mod tid;
pub mod tvector;
pub mod vacuum;
pub mod vacuum_laws;
pub mod vector_laws;
pub mod write_back_laws;
pub mod write_laws;
pub mod xact;
