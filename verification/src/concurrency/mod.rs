pub mod atomic_protection;
pub mod chunked_ll;
pub mod cross_thread_buffer;
pub mod lockout;
pub mod seg_queue;
