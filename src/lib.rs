//! In-place comparison sorts over vectors of `u64`, each proved to leave its
//! input in non-decreasing order and holding the same multiset of values.

pub mod order;
pub mod simple;
pub mod heap;
pub mod merge;
pub mod quick;
pub mod native;
pub mod laws;

pub use heap::heap_sort;
pub use merge::{
    merge_sort_bottom_up, merge_sort_bottom_up_insert, merge_sort_top_down,
    merge_sort_top_down_insert,
};
pub use native::{native_sort, native_unstable_sort};
pub use quick::{quick_sort, quick_sort_3};
pub use simple::{bubble_sort, gnome_sort, insertion_sort, insertion_sort_range, selection_sort, shell_sort};
