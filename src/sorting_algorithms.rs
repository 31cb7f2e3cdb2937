pub mod order;
pub mod quick_sort;
pub mod selection_sort;
pub mod bubble_sort;
pub mod insertion_sort;
pub mod merge_sort;
