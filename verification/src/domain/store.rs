//! The in-memory data and the rules of the commands.

use vstd::prelude::*;

use super::{
    Command, CommandView, DomainError, DomainErrorView, Reply, ReplyView, SetOutcome,
    SetOutcomeView, StoreStatus,
};
use crate::result_view;
use crate::text::views;
use crate::text_map::{
    ascending, before, contents_of, entry_views, in_key_order, law_text_order,
    lemma_contents_in_order, lemma_contents_keys, lemma_entries_of_map, lemma_sorted_entries,
    sorted_entries, sorted_keys, Contents, TextMap,
};

verus! {

/// Whether a command changes what is stored when it succeeds.
pub open spec fn is_mutation_view(command: CommandView) -> bool {
    command is SetValue || command is Update || command is Delete
}

/// Whether a key may be used at all.
pub open spec fn key_allowed(key: Seq<char>) -> Result<(), DomainErrorView> {
    if key.len() == 0 {
        Err(DomainErrorView::EmptyKey)
    } else {
        Ok(())
    }
}

/// Whether a key may be used and is stored.
pub open spec fn key_stored(contents: Contents, key: Seq<char>) -> Result<(), DomainErrorView> {
    if key.len() == 0 {
        Err(DomainErrorView::EmptyKey)
    } else if !contents.contains_key(key) {
        Err(DomainErrorView::NotFound { key })
    } else {
        Ok(())
    }
}

/// Whether a command may be executed.
pub open spec fn validation(contents: Contents, command: CommandView) -> Result<
    (),
    DomainErrorView,
> {
    match command {
        CommandView::SetValue { key, value } => key_allowed(key),
        CommandView::Update { key, value } => key_stored(contents, key),
        CommandView::Get { key } => key_stored(contents, key),
        CommandView::Delete { key } => key_stored(contents, key),
        CommandView::Keys => Ok(()),
        CommandView::Status => Ok(()),
    }
}

/// What a SET of a key gives back.
pub open spec fn set_outcome(contents: Contents, key: Seq<char>) -> SetOutcomeView {
    if contents.contains_key(key) {
        SetOutcomeView::Overwritten { old_value: contents[key] }
    } else {
        SetOutcomeView::Created
    }
}

/// What the store holds after a command.
pub open spec fn applied(contents: Contents, command: CommandView) -> Contents {
    if validation(contents, command) is Err {
        contents
    } else {
        match command {
            CommandView::SetValue { key, value } => contents.insert(key, value),
            CommandView::Update { key, value } => contents.insert(key, value),
            CommandView::Delete { key } => contents.remove(key),
            _ => contents,
        }
    }
}

/// What a command gives back.
pub open spec fn answer(contents: Contents, command: CommandView) -> Result<
    ReplyView,
    DomainErrorView,
> {
    match validation(contents, command) {
        Err(error) => Err(error),
        Ok(_) => Ok(
            match command {
                CommandView::SetValue { key, value } => ReplyView::SetValue(set_outcome(contents, key)),
                CommandView::Update { key, value } => ReplyView::Updated {
                    old_value: contents[key],
                },
                CommandView::Get { key } => ReplyView::Value(contents[key]),
                CommandView::Delete { key } => ReplyView::Deleted { value: contents[key] },
                CommandView::Keys => ReplyView::Keys(sorted_keys(contents)),
                CommandView::Status => ReplyView::Status { key_count: contents.len() },
            },
        ),
    }
}

/// The store: the data and its rules, without command line, network, log or snapshot.
#[derive(Debug)]
pub struct Store {
    entries: TextMap,
}

impl View for Store {
    type V = Contents;

    closed spec fn view(&self) -> Contents {
        self.entries@
    }
}

impl Default for Store {
    fn default() -> (store: Store)
        ensures
            store@ == Contents::empty(),
    {
        Store { entries: TextMap::new() }
    }
}

impl Store {
    /// An empty store.
    #[must_use]
    pub fn new() -> (store: Store)
        ensures
            store@ == Contents::empty(),
    {
        Store { entries: TextMap::new() }
    }

    /// Executes a command.
    pub fn execute(&mut self, command: Command) -> (result: Result<Reply, DomainError>)
        ensures
            final(self)@ == applied(old(self)@, command@),
            result_view(result) == answer(old(self)@, command@),
    {
        match command {
            Command::SetValue { key, value } => match self.set(key, value) {
                Ok(outcome) => Ok(Reply::SetValue(outcome)),
                Err(error) => Err(error),
            },
            Command::Update { key, value } => match self.update(key.as_str(), value) {
                Ok(old_value) => Ok(Reply::Updated { old_value }),
                Err(error) => Err(error),
            },
            Command::Get { key } => match self.get(key.as_str()) {
                Ok(value) => Ok(Reply::Value(value.to_owned())),
                Err(error) => Err(error),
            },
            Command::Delete { key } => match self.delete(key.as_str()) {
                Ok(value) => Ok(Reply::Deleted { value }),
                Err(error) => Err(error),
            },
            Command::Keys => Ok(Reply::Keys(self.keys())),
            Command::Status => Ok(Reply::Status(self.status())),
        }
    }

    /// Checks a command without changing anything.
    ///
    /// A mutation is checked before it is logged, so that one that fails never enters the log.
    pub fn validate(&self, command: &Command) -> (result: Result<(), DomainError>)
        ensures
            result_view(result) == validation(self@, command@),
    {
        match command {
            Command::SetValue { key, .. } => Self::validate_key(key.as_str()),
            Command::Update { key, .. } => self.validate_stored(key.as_str()),
            Command::Get { key } => self.validate_stored(key.as_str()),
            Command::Delete { key } => self.validate_stored(key.as_str()),
            Command::Keys => Ok(()),
            Command::Status => Ok(()),
        }
    }

    /// Writes a new key, or overwrites the value of one that exists.
    pub fn set(&mut self, key: String, value: String) -> (result: Result<SetOutcome, DomainError>)
        ensures
            final(self)@ == applied(old(self)@, CommandView::SetValue { key: key@, value: value@ }),
            key@.len() == 0 ==> result_view(result) == Err::<SetOutcomeView, _>(
                DomainErrorView::EmptyKey,
            ),
            key@.len() > 0 ==> result_view(result) == Ok::<_, DomainErrorView>(
                set_outcome(old(self)@, key@),
            ),
    {
        match Self::validate_key(key.as_str()) {
            Err(error) => Err(error),
            Ok(()) => match self.entries.insert(key, value) {
                Some(old_value) => Ok(SetOutcome::Overwritten { old_value }),
                None => Ok(SetOutcome::Created),
            },
        }
    }

    /// Changes the value of a key that exists; hands back its old value.
    pub fn update(&mut self, key: &str, value: String) -> (result: Result<String, DomainError>)
        ensures
            final(self)@ == applied(old(self)@, CommandView::Update { key: key@, value: value@ }),
            result_view(result) == (match key_stored(old(self)@, key@) {
                Ok(_) => Ok::<Seq<char>, DomainErrorView>(old(self)@[key@]),
                Err(error) => Err(error),
            }),
    {
        match self.validate_stored(key) {
            Err(error) => Err(error),
            Ok(()) => match self.entries.insert(key.to_owned(), value) {
                Some(old_value) => Ok(old_value),
                None => Err(DomainError::NotFound { key: key.to_owned() }),
            },
        }
    }

    /// Looks a key up.
    pub fn get(&self, key: &str) -> (result: Result<&str, DomainError>)
        ensures
            result_view(result) == (match key_stored(self@, key@) {
                Ok(_) => Ok::<Seq<char>, DomainErrorView>(self@[key@]),
                Err(error) => Err(error),
            }),
    {
        match Self::validate_key(key) {
            Err(error) => Err(error),
            Ok(()) => match self.entries.get(key) {
                Some(value) => Ok(value.as_str()),
                None => Err(DomainError::NotFound { key: key.to_owned() }),
            },
        }
    }

    /// Removes a key; hands back its value.
    pub fn delete(&mut self, key: &str) -> (result: Result<String, DomainError>)
        ensures
            final(self)@ == applied(old(self)@, CommandView::Delete { key: key@ }),
            result_view(result) == (match key_stored(old(self)@, key@) {
                Ok(_) => Ok::<Seq<char>, DomainErrorView>(old(self)@[key@]),
                Err(error) => Err(error),
            }),
    {
        match Self::validate_key(key) {
            Err(error) => Err(error),
            Ok(()) => match self.entries.remove(key) {
                Some(value) => Ok(value),
                None => {
                    assert(old(self)@.remove(key@) =~= old(self)@);
                    Err(DomainError::NotFound { key: key.to_owned() })
                },
            },
        }
    }

    /// The keys, in ascending order.
    #[must_use]
    pub fn keys(&self) -> (keys: Vec<String>)
        ensures
            views(keys@) == sorted_keys(self@),
            ascending(views(keys@)),
    {
        self.entries.keys()
    }

    /// The number of keys.
    #[must_use]
    pub fn status(&self) -> (status: StoreStatus)
        ensures
            status.key_count == self@.len(),
    {
        StoreStatus { key_count: self.entries.len() }
    }

    /// Removes all keys; hands back how many there were.
    pub fn clear(&mut self) -> (cleared: usize)
        ensures
            final(self)@ == Contents::empty(),
            cleared == old(self)@.len(),
    {
        let cleared: usize = self.entries.len();
        self.entries.clear();
        cleared
    }

    /// The entries in key order, so that a snapshot of the same data always reads the same.
    #[must_use]
    pub fn export_entries(&self) -> (entries: Vec<(String, String)>)
        ensures
            entry_views(entries@) == sorted_entries(self@),
            in_key_order(entry_views(entries@)),
            contents_of(entry_views(entries@)) == self@,
    {
        self.entries.entries()
    }

    /// A store with the entries of a snapshot. Of two entries with one key the later counts.
    #[must_use]
    pub fn from_entries(entries: Vec<(String, String)>) -> (store: Store)
        ensures
            store@ == contents_of(entry_views(entries@)),
    {
        Store { entries: TextMap::from_entries(entries) }
    }

    fn validate_key(key: &str) -> (result: Result<(), DomainError>)
        ensures
            result_view(result) == key_allowed(key@),
    {
        if key.is_empty() {
            Err(DomainError::EmptyKey)
        } else {
            Ok(())
        }
    }

    fn validate_stored(&self, key: &str) -> (result: Result<(), DomainError>)
        ensures
            result_view(result) == key_stored(self@, key@),
    {
        match Self::validate_key(key) {
            Err(error) => Err(error),
            Ok(()) => if self.entries.contains_key(key) {
                Ok(())
            } else {
                Err(DomainError::NotFound { key: key.to_owned() })
            },
        }
    }
}

/// Validation decides: a command that passes it succeeds, and one that does not is answered
/// with the error of the validation.
pub proof fn law_validation_decides(contents: Contents, command: CommandView)
    ensures
        validation(contents, command) is Ok <==> answer(contents, command) is Ok,
        validation(contents, command) is Err ==> answer(contents, command)->Err_0 == validation(
            contents,
            command,
        )->Err_0,
{
}

/// A command that is refused, and one that only reads, leaves the store as it was.
pub proof fn law_refused_commands_change_nothing(contents: Contents, command: CommandView)
    requires
        answer(contents, command) is Err || !is_mutation_view(command),
    ensures
        applied(contents, command) == contents,
{
}

/// After a SET or a successful UPDATE of a key, GET of that key gives the new value, and GET
/// of any other key is answered as before.
pub proof fn law_set_then_get(
    contents: Contents,
    key: Seq<char>,
    value: Seq<char>,
    other: Seq<char>,
)
    requires
        key.len() > 0,
        other != key,
    ensures
        answer(
            applied(contents, CommandView::SetValue { key, value }),
            CommandView::Get { key },
        ) == Ok::<_, DomainErrorView>(ReplyView::Value(value)),
        answer(
            applied(contents, CommandView::SetValue { key, value }),
            CommandView::Get { key: other },
        ) == answer(contents, CommandView::Get { key: other }),
        contents.contains_key(key) ==> applied(contents, CommandView::Update { key, value })
            == applied(contents, CommandView::SetValue { key, value }),
{
}

/// After a DELETE of a key, the key is not found, and GET of any other key is answered as
/// before.
pub proof fn law_deleted_key_is_gone(contents: Contents, key: Seq<char>, other: Seq<char>)
    requires
        key.len() > 0,
        other != key,
    ensures
        answer(applied(contents, CommandView::Delete { key }), CommandView::Get { key })
            == Err::<ReplyView, _>(DomainErrorView::NotFound { key }),
        answer(applied(contents, CommandView::Delete { key }), CommandView::Get { key: other })
            == answer(contents, CommandView::Get { key: other }),
{
}

/// What a command hands back is what GET gave before it: SET and UPDATE hand back the value
/// that they replace, and DELETE the one that it removes. SET creates exactly the keys that
/// GET does not find; UPDATE and DELETE succeed exactly where GET does, and fail with its
/// error.
pub proof fn law_replies_hand_back_the_old_value(
    contents: Contents,
    key: Seq<char>,
    value: Seq<char>,
)
    ensures
        ({
            let got = answer(contents, CommandView::Get { key });
            let set = answer(contents, CommandView::SetValue { key, value });
            let updated = answer(contents, CommandView::Update { key, value });
            let deleted = answer(contents, CommandView::Delete { key });
            &&& set is Ok <==> key.len() > 0
            &&& key.len() == 0 ==> set == Err::<ReplyView, _>(DomainErrorView::EmptyKey) && got
                == set && updated == set && deleted == set
            &&& key.len() > 0 && got is Err ==> got == Err::<ReplyView, _>(
                DomainErrorView::NotFound { key },
            ) && updated == got && deleted == got && set == Ok::<_, DomainErrorView>(
                ReplyView::SetValue(SetOutcomeView::Created),
            )
            &&& got matches Ok(found) ==> {
                &&& found is Value
                &&& set == Ok::<_, DomainErrorView>(
                    ReplyView::SetValue(SetOutcomeView::Overwritten { old_value: found->Value_0 }),
                )
                &&& updated == Ok::<_, DomainErrorView>(
                    ReplyView::Updated { old_value: found->Value_0 },
                )
                &&& deleted == Ok::<_, DomainErrorView>(
                    ReplyView::Deleted { value: found->Value_0 },
                )
            }
        }),
{
}

/// The data after a command, key by key: SET and UPDATE give their key their value, DELETE
/// takes its key out, and every other key keeps what it had. UPDATE and DELETE of a key that
/// is not stored change nothing.
pub proof fn law_commands_touch_their_key_alone(
    contents: Contents,
    key: Seq<char>,
    value: Seq<char>,
    other: Seq<char>,
)
    requires
        key.len() > 0,
    ensures
        ({
            let set = applied(contents, CommandView::SetValue { key, value });
            let updated = applied(contents, CommandView::Update { key, value });
            let deleted = applied(contents, CommandView::Delete { key });
            &&& set.contains_key(key) && set[key] == value
            &&& contents.contains_key(key) ==> updated.contains_key(key) && updated[key] == value
            &&& !contents.contains_key(key) ==> updated == contents && deleted == contents
            &&& !deleted.contains_key(key)
            &&& other != key ==> {
                &&& set.contains_key(other) == contents.contains_key(other)
                &&& updated.contains_key(other) == contents.contains_key(other)
                &&& deleted.contains_key(other) == contents.contains_key(other)
                &&& contents.contains_key(other) ==> set[other] == contents[other]
                    && updated[other] == contents[other] && deleted[other] == contents[other]
            }
        }),
{
}

/// GET finds exactly what is stored; KEYS lists exactly the stored keys, each once and in
/// ascending order; STATUS counts them.
pub proof fn law_reading_shows_what_is_stored(contents: Contents, key: Seq<char>)
    requires
        contents.dom().finite(),
    ensures
        ({
            let got = answer(contents, CommandView::Get { key });
            let listed = answer(contents, CommandView::Keys);
            let status = answer(contents, CommandView::Status);
            &&& key.len() > 0 ==> (got is Ok <==> contents.contains_key(key))
            &&& got is Ok ==> got->Ok_0 == ReplyView::Value(contents[key])
            &&& listed is Ok && listed->Ok_0 is Keys
            &&& listed->Ok_0->Keys_0.contains(key) <==> contents.contains_key(key)
            &&& ascending(listed->Ok_0->Keys_0)
            &&& forall|i: int, j: int|
                0 <= i < j < listed->Ok_0->Keys_0.len() ==> before(
                    #[trigger] listed->Ok_0->Keys_0[i],
                    #[trigger] listed->Ok_0->Keys_0[j],
                )
            &&& listed->Ok_0->Keys_0.no_duplicates()
            &&& status == Ok::<_, DomainErrorView>(
                ReplyView::Status { key_count: listed->Ok_0->Keys_0.len() },
            )
            &&& listed->Ok_0->Keys_0.len() == contents.len()
        }),
{
    let entries = sorted_entries(contents);
    let keys = sorted_keys(contents);
    lemma_entries_of_map(contents);
    lemma_contents_in_order(entries);
    lemma_contents_keys(entries, key);
    lemma_sorted_entries(entries);
    if contents.contains_key(key) {
        let i = choose|i: int| 0 <= i < entries.len() && (#[trigger] entries[i]).0 == key;
        assert(keys[i] == key);
    }
    if keys.contains(key) {
        let i = choose|i: int| 0 <= i < keys.len() && keys[i] == key;
        assert(entries[i].0 == key);
    }
    assert forall|i: int, j: int| 0 <= i < keys.len() && 0 <= j < keys.len() && i != j implies keys[i]
        != keys[j] by {
        law_text_order(keys[i], keys[j], keys[i]);
        if i < j {
            assert(before(keys[i], keys[j]));
        } else {
            assert(before(keys[j], keys[i]));
        }
    }
}

/// A mutation that succeeds is seen by KEYS and STATUS: a new key adds one, a removed key
/// takes one away, and any other command keeps the number.
pub proof fn law_the_number_of_keys_follows(contents: Contents, command: CommandView)
    requires
        contents.dom().finite(),
    ensures
        ({
            let after = applied(contents, command);
            &&& after.dom().finite()
            &&& after.len() == contents.len() + match answer(contents, command) {
                Ok(ReplyView::SetValue(SetOutcomeView::Created)) => 1int,
                Ok(ReplyView::Deleted { .. }) => -1,
                _ => 0,
            }
        }),
{
    let after = applied(contents, command);
    match command {
        CommandView::SetValue { key, value } => {
            if key.len() > 0 {
                if contents.contains_key(key) {
                    assert(after.dom() =~= contents.dom());
                } else {
                    assert(after.dom() =~= contents.dom().insert(key));
                }
            }
        },
        CommandView::Update { key, value } => {
            if contents.contains_key(key) {
                assert(after.dom() =~= contents.dom());
            }
        },
        CommandView::Delete { key } => {
            assert(after.dom() =~= contents.dom().remove(key) || after == contents);
        },
        _ => {},
    }
}

} // verus!
