pub mod finger_table;
