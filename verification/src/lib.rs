//! The protocol core of an HTTP server: HTTP/1.1, HTTP/2 and HTTP/3 over one
//! route table, with every decision stated as a contract and proved.
//!
//! Nothing here performs I/O. A driver reads bytes and the clock, hands them to
//! these functions as plain values, and carries out what they answer.

pub mod app;
pub mod body;
pub mod bytes;
pub mod cache;
pub mod conn;
pub mod field_laws;
pub mod fields;
pub mod h1;
pub mod h1_bind;
pub mod h1_dispatch;
pub mod h1_fs;
pub mod h1_laws;
pub mod h1_recv;
pub mod h1_send;
pub mod h1_wire;
pub mod h1_ws;
pub mod h2;
pub mod h2_app;
pub mod h2_dispatch;
pub mod h2_frames;
pub mod h2_hold;
pub mod h2_laws;
pub mod h2_request;
pub mod h2_response;
pub mod h2_send;
pub mod h2_wire;
pub mod h2_ws;
pub mod h3;
pub mod h3_control;
pub mod h3_dispatch;
pub mod h3_egress;
pub mod h3_laws;
pub mod h3_pump;
pub mod h3_request;
pub mod h3_response;
pub mod h3_run;
pub mod h3_step;
pub mod h3_stream;
pub mod h3_tables;
pub mod h3_wire;
pub mod hpack;
pub mod huffman;
pub mod huffman_code;
pub mod lifecycle;
pub mod listeners;
pub mod method;
pub mod mux;
pub mod net;
pub mod params;
pub mod peers;
pub mod prefix_int;
pub mod proxy;
pub mod qpack;
pub mod reqbody;
pub mod response;
pub mod routes;
pub mod server;
pub mod site;
pub mod slots;
pub mod static_fields;
pub mod varint;
pub mod ws_wire;
