use vstd::prelude::*;

mod codec;
mod manifest;
mod updater;

pub use manifest::Manifest;
pub use manifest::ManifestTargetEntry;
pub use updater::ActionOutcome;
pub use updater::ProgressWatcher;
pub use updater::TargetInfo;
pub use updater::UpdateAction;
pub use updater::UpdateError;
pub use updater::UpdateErrorKind;
pub use updater::UpdateProgress;
pub use updater::UpdateReport;
pub use updater::UpdateResult;
pub use updater::Updater;
pub use updater::targets_unique;
