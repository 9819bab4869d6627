use vstd::prelude::*;

verus! {

/// An entry of the item list of the data source: code, title and the
/// periods in which the item is offered.
pub struct ModuleShort {
    pub module_code: String,
    pub title: String,
    pub semesters: Vec<usize>,
}

impl ModuleShort {
    /// A copy of the item's code.
    pub fn to_code(&self) -> (r: String)
        ensures
            r@ == self.module_code@,
    {
        self.module_code.clone()
    }
}

/// The same entry with the periods as signed numbers, as the source
/// writes them.
pub struct NusmodsModuleShort {
    pub module_code: String,
    pub title: String,
    pub semesters: Vec<i32>,
}

impl NusmodsModuleShort {
    /// A copy of the item's code.
    pub fn code(&self) -> (r: String)
        ensures
            r@ == self.module_code@,
    {
        self.module_code.clone()
    }
}

/// A short summary of an item.
pub struct ModuleSummary {
    pub module_code: String,
    pub title: String,
    pub semesters: Vec<u8>,
}

} // verus!
