//! Classroom participation tracking: a roster reconciler, a fair student
//! picker, and a participation ledger, each verified against an explicit
//! model of the persisted state.

pub mod ledger;
pub mod model;
pub mod picker;
pub mod reconcile;
pub mod roster;
pub mod store;

pub use ledger::get_categories;
pub use ledger::get_event_recorder;
pub use ledger::get_students;
pub use ledger::period_maxes;
pub use ledger::update_summary;
pub use ledger::update_summary_at;
pub use ledger::EventRecorder;
pub use model::Category;
pub use model::EmptyPoolError;
pub use model::Event;
pub use model::EventView;
pub use model::PersistenceError;
pub use model::Status;
pub use model::Student;
pub use model::SummaryEntry;
pub use model::SummaryRow;
pub use picker::get_student_picker;
pub use picker::StudentPicker;
pub use reconcile::synchronize;
pub use reconcile::synchronize_at;
pub use reconcile::ReconcileStats;
pub use roster::roster_from_records;
pub use roster::Roster;
pub use roster::RosterIterator;
pub use store::Store;
