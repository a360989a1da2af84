//! Verified counting over reporting hierarchies, together with a handful of
//! verified array and sequence routines.

pub mod acyclic;
pub mod employee_count;
pub mod heater_radius;
pub mod hierarchy;
pub mod id_map;
pub mod max_guests;
pub mod prefix_sum;
pub mod segregate;
pub mod spiral;
pub mod subarray_sums_equal_k;
pub mod wave_sort;
