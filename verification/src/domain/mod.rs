//! The business domain: commands, replies, errors and the in-memory store.
//!
//! Nothing here touches the network or a file.

mod command;
mod error;
mod reply;
mod store;

pub use command::{Command, CommandView};
pub use error::{law_errors_name_the_key, DomainError, DomainErrorView};
pub use reply::{Reply, ReplyView, SetOutcome, SetOutcomeView, StoreStatus};
pub use store::{
    answer, applied, is_mutation_view, key_allowed, key_stored, law_commands_touch_their_key_alone,
    law_deleted_key_is_gone, law_reading_shows_what_is_stored, law_refused_commands_change_nothing,
    law_replies_hand_back_the_old_value, law_set_then_get, law_the_number_of_keys_follows,
    law_validation_decides, set_outcome, validation, Store,
};
