pub mod gd_udp;
