pub mod closure;
pub mod codes;
pub mod combinations;
pub mod error;
pub mod laws;
pub mod path;
pub mod plan;
pub mod records;
pub mod search;
pub mod text;
pub mod topo;
pub mod tree;
pub mod weave;

pub use closure::{ClosureLoader, Step};
pub use combinations::{combinations, Combinations};
pub use error::Error;
pub use path::{Module, Path};
pub use plan::{ModuleKind, Period, Plan, PlanBuilder, Semester};
pub use records::{ModuleShort, ModuleSummary, NusmodsModuleShort};
pub use search::find_minimal_schedules;
pub use text::{parse_url, validate_academic_year};
pub use topo::{topological_order, topological_sort_modules};
pub use tree::PrereqTree;
pub use weave::{vec_eq, weave, Counter};
