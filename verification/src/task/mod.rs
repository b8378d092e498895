#[allow(non_snake_case)]
pub mod CLI;
pub mod read_drive;
pub mod system_vars;
