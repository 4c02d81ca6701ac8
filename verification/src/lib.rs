pub mod mtkey;
pub mod random_cs;
pub mod key_bruteforce;
pub mod client_server_pair;
pub mod udp_data_processor;
pub mod evergreen;
pub mod sniffer;
pub mod toolkit_app;
pub mod iridium;
