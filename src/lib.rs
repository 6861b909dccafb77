use vstd::prelude::*;

pub mod cache;
pub mod codec;
pub mod decimal;
pub mod employee;
pub mod fetcher;
pub mod stock;

verus! {

/// The panel shown in the main window.
#[derive(Clone, Copy, Debug, PartialEq, Eq, Structural)]
pub enum ActivePanel {
    Home,
    Admin,
    Payroll,
    Employees,
    Settings,
}

} // verus!
