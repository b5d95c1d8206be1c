pub mod timings;
