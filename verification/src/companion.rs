//! The companion that lets a local agent read and write the notebook, within a policy.

use vstd::prelude::*;
use vstd::string::*;

use crate::limits::MAX_SECTION_CHARS;
use crate::plain::{opt_view, views};
use crate::text::{
    ascii_lowercase, chars_of, contains_char, decimal_value, split, split_text, text_eq,
    to_lowercase_ascii, trim, trimmed,
};

verus! {

/// The largest file that a policy is read from, in bytes.
pub const MAX_POLICY_BYTES: u64 = 65_536;

/// The longest phrase that is searched for, in characters.
pub const MAX_QUERY_CHARS: usize = 500;

/// How many results are given at most, whatever the policy says.
pub const HARD_MAX_RESULTS: u16 = 200;

/// How many lists a policy can name.
pub const MAX_LISTS: usize = 128;

/// What wakes the window after a change.
pub const REFRESH: &'static str = "refresh";

/// Why the companion does not do something.
#[derive(Debug, Clone, Copy, PartialEq, Eq, Structural)]
pub enum CompanionError {
    /// The number of results is not between one and the hard limit.
    MaxResults,
    /// The lists are too many, or not positive, or one of them is named twice.
    ListIds,
    ListNameLength,
    ListNameLines,
    LargePolicy,
    /// An option has no value.
    MissingValue,
    UnknownWriteMode,
    NotBoolean,
    NotIds,
    NotInteger,
    UnknownOption,
    ReadsDisabled,
    ReadOnly,
    CreationNotPermitted,
    CreationRestricted,
    EmptyContent,
    LongContent,
    LongQuery,
    EmptyQuery,
    /// Both an identifier and a name were given.
    BothGiven,
    InvalidListId,
    InvalidItemId,
    /// The list is gone.
    ListGone,
    /// No list is called so.
    NoSuchList,
    ListRequired,
    ListNotPermitted,
    ItemGone,
    ItemNotPermitted,
    NameTaken,
    /// There is no identifier left.
    Full,
}

/// What an agent may write.
#[derive(Debug, Clone, Copy, PartialEq, Eq, Structural)]
pub enum WriteMode {
    ReadOnly,
    TodosOnly,
    ManageLists,
}

/// What an agent may do.
#[derive(Debug, Clone, PartialEq, Eq)]
pub struct Policy {
    pub read_enabled: bool,
    pub write_mode: WriteMode,
    pub default_list: Option<String>,
    pub allow_inbox: bool,
    /// The lists that may be used; all of them where none is named.
    pub allowed_list_ids: Vec<i64>,
    pub include_completed: bool,
    pub include_attachment_metadata: bool,
    pub max_results: u16,
}

/// What an agent may do.
pub struct PolicyView {
    pub read_enabled: bool,
    pub write_mode: WriteMode,
    pub default_list: Option<Seq<char>>,
    pub allow_inbox: bool,
    pub allowed: Seq<i64>,
    pub include_completed: bool,
    pub include_attachment_metadata: bool,
    pub max_results: u16,
}

impl View for Policy {
    type V = PolicyView;

    open spec fn view(&self) -> PolicyView {
        PolicyView {
            read_enabled: self.read_enabled,
            write_mode: self.write_mode,
            default_list: opt_view(self.default_list),
            allow_inbox: self.allow_inbox,
            allowed: self.allowed_list_ids@,
            include_completed: self.include_completed,
            include_attachment_metadata: self.include_attachment_metadata,
            max_results: self.max_results,
        }
    }
}

/// What an agent may do unless something else is said: read what is open.
pub open spec fn default_policy() -> PolicyView {
    PolicyView {
        read_enabled: true,
        write_mode: WriteMode::ReadOnly,
        default_list: None,
        allow_inbox: true,
        allowed: Seq::empty(),
        include_completed: false,
        include_attachment_metadata: false,
        max_results: 50,
    }
}

impl Default for Policy {
    fn default() -> (policy: Self)
        ensures
            policy@ == default_policy(),
    {
        let policy = Policy {
            read_enabled: true,
            write_mode: WriteMode::ReadOnly,
            default_list: None,
            allow_inbox: true,
            allowed_list_ids: Vec::new(),
            include_completed: false,
            include_attachment_metadata: false,
            max_results: 50,
        };
        assert(policy@.allowed =~= Seq::empty());
        policy
    }
}

/// Why a text cannot be the name of a list.
pub open spec fn list_name_fault(text: Seq<char>) -> Option<CompanionError> {
    let name = trimmed(text);
    if name.len() == 0 || name.len() > MAX_SECTION_CHARS {
        Some(CompanionError::ListNameLength)
    } else if name.contains('\n') || name.contains('\r') {
        Some(CompanionError::ListNameLines)
    } else {
        None
    }
}

/// The name of a list, without the blanks around it.
pub fn validate_list_name(name: &str) -> (result: Result<String, CompanionError>)
    ensures
        match list_name_fault(name@) {
            Some(fault) => result == Err::<String, CompanionError>(fault),
            None => result matches Ok(kept) && kept@ == trimmed(name@),
        },
{
    let kept = trim(name);
    let count: usize = chars_of(kept.as_str()).len();
    if count == 0 || count > MAX_SECTION_CHARS {
        return Err(CompanionError::ListNameLength);
    }
    if contains_char(kept.as_str(), '\n') || contains_char(kept.as_str(), '\r') {
        return Err(CompanionError::ListNameLines);
    }
    Ok(kept)
}

/// Positive identifiers, each of them once.
pub open spec fn distinct_ids(ids: Seq<i64>) -> bool {
    &&& forall|i: int| 0 <= i < ids.len() ==> #[trigger] ids[i] > 0
    &&& forall|i: int, j: int| 0 <= i < j < ids.len() ==> ids[i] != ids[j]
}

/// What is wrong with a policy.
pub open spec fn policy_fault(policy: PolicyView) -> Option<CompanionError> {
    if policy.max_results == 0 || policy.max_results > HARD_MAX_RESULTS {
        Some(CompanionError::MaxResults)
    } else if policy.allowed.len() > MAX_LISTS || !distinct_ids(policy.allowed) {
        Some(CompanionError::ListIds)
    } else {
        match policy.default_list {
            Some(name) => list_name_fault(name),
            None => None,
        }
    }
}

/// A list may be used.
pub open spec fn allowed_list(policy: PolicyView, list: Option<i64>) -> bool {
    match list {
        None => policy.allow_inbox,
        Some(id) => policy.allowed.len() == 0 || policy.allowed.contains(id),
    }
}

/// How many results are given.
pub open spec fn limit_of(policy: PolicyView, requested: Option<u16>) -> int {
    let wanted = match requested {
        Some(count) => if count >= 1 {
            count as int
        } else {
            1
        },
        None => if policy.max_results >= 1 {
            policy.max_results as int
        } else {
            1
        },
    };
    let capped = if wanted <= policy.max_results {
        wanted
    } else {
        policy.max_results as int
    };
    if capped <= HARD_MAX_RESULTS {
        capped
    } else {
        HARD_MAX_RESULTS as int
    }
}

fn are_distinct(ids: &[i64]) -> (distinct: bool)
    ensures
        distinct == distinct_ids(ids@),
{
    let mut at: usize = 0;
    while at < ids.len()
        invariant
            at <= ids.len(),
            forall|i: int| 0 <= i < at ==> #[trigger] ids@[i] > 0,
            forall|i: int, j: int| 0 <= i < j < at ==> ids@[i] != ids@[j],
        decreases ids.len() - at,
    {
        if ids[at] <= 0 {
            return false;
        }
        let mut earlier: usize = 0;
        while earlier < at
            invariant
                earlier <= at < ids.len(),
                forall|i: int| 0 <= i < earlier ==> ids@[i] != ids@[at as int],
            decreases at - earlier,
        {
            if ids[earlier] == ids[at] {
                return false;
            }
            earlier = earlier + 1;
        }
        at = at + 1;
    }
    true
}

impl Policy {
    /// What is wrong with a policy.
    pub fn validate(&self) -> (result: Result<(), CompanionError>)
        ensures
            result == match policy_fault(self@) {
                Some(fault) => Err::<(), CompanionError>(fault),
                None => Ok(()),
            },
    {
        if self.max_results == 0 || self.max_results > HARD_MAX_RESULTS {
            return Err(CompanionError::MaxResults);
        }
        if self.allowed_list_ids.len() > MAX_LISTS || !are_distinct(
            self.allowed_list_ids.as_slice(),
        ) {
            return Err(CompanionError::ListIds);
        }
        match &self.default_list {
            Some(name) => match validate_list_name(name.as_str()) {
                Err(fault) => Err(fault),
                Ok(_) => Ok(()),
            },
            None => Ok(()),
        }
    }

    /// Whether a list may be used.
    pub fn allows_list(&self, id: Option<i64>) -> (allowed: bool)
        ensures
            allowed == allowed_list(self@, id),
    {
        match id {
            None => self.allow_inbox,
            Some(list) => {
                if self.allowed_list_ids.len() == 0 {
                    return true;
                }
                let mut at: usize = 0;
                while at < self.allowed_list_ids.len()
                    invariant
                        id == Some(list),
                        at <= self.allowed_list_ids.len(),
                        forall|i: int| 0 <= i < at ==> self.allowed_list_ids@[i] != list,
                    decreases self.allowed_list_ids.len() - at,
                {
                    if self.allowed_list_ids[at] == list {
                        return true;
                    }
                    at = at + 1;
                }
                false
            },
        }
    }

    /// How many results are given.
    pub fn result_limit(&self, requested: Option<u16>) -> (limit: usize)
        ensures
            limit == limit_of(self@, requested),
            limit <= HARD_MAX_RESULTS,
    {
        let wanted: u16 = match requested {
            Some(count) => count,
            None => self.max_results,
        };
        let wanted: u16 = if wanted >= 1 {
            wanted
        } else {
            1
        };
        let capped: u16 = if wanted <= self.max_results {
            wanted
        } else {
            self.max_results
        };
        if capped <= HARD_MAX_RESULTS {
            capped as usize
        } else {
            HARD_MAX_RESULTS as usize
        }
    }

    /// Whether an agent may read.
    pub fn require_reads(&self) -> (result: Result<(), CompanionError>)
        ensures
            result == if self@.read_enabled {
                Ok::<(), CompanionError>(())
            } else {
                Err(CompanionError::ReadsDisabled)
            },
    {
        if self.read_enabled {
            Ok(())
        } else {
            Err(CompanionError::ReadsDisabled)
        }
    }

    /// Whether an agent may write todos.
    pub fn require_todo_writes(&self) -> (result: Result<(), CompanionError>)
        ensures
            result == if self@.write_mode != WriteMode::ReadOnly {
                Ok::<(), CompanionError>(())
            } else {
                Err(CompanionError::ReadOnly)
            },
    {
        match self.write_mode {
            WriteMode::ReadOnly => Err(CompanionError::ReadOnly),
            _ => Ok(()),
        }
    }
}

/// A policy that is not too large to be read.
pub fn check_policy_size(bytes: u64) -> (result: Result<(), CompanionError>)
    ensures
        result == if bytes <= MAX_POLICY_BYTES {
            Ok::<(), CompanionError>(())
        } else {
            Err(CompanionError::LargePolicy)
        },
{
    if bytes <= MAX_POLICY_BYTES {
        Ok(())
    } else {
        Err(CompanionError::LargePolicy)
    }
}

/// A valid policy lets at least one result through, and never more than it says or than the hard
/// limit.
pub proof fn lemma_results_bounded(policy: PolicyView, requested: Option<u16>)
    requires
        policy_fault(policy) is None,
    ensures
        1 <= limit_of(policy, requested) <= policy.max_results,
        limit_of(policy, requested) <= HARD_MAX_RESULTS,
{
}

/// The policy that stands unless something else is said is valid, and writes nothing.
pub proof fn lemma_default_policy()
    ensures
        policy_fault(default_policy()) is None,
        default_policy().write_mode == WriteMode::ReadOnly,
{
}

/// A decimal digit.
pub open spec fn digit(character: char) -> bool {
    '0' <= character <= '9'
}

/// Decimal digits, at least one of them.
pub open spec fn digits(text: Seq<char>) -> bool {
    text.len() > 0 && forall|i: int| 0 <= i < text.len() ==> digit(#[trigger] text[i])
}

/// The whole number that a text stands for: digits, with a sign before them or none.
pub open spec fn whole_number(text: Seq<char>) -> Option<int> {
    if digits(text) {
        Some(decimal_value(text) as int)
    } else if text.len() > 0 && text[0] == '+' && digits(text.skip(1)) {
        Some(decimal_value(text.skip(1)) as int)
    } else if text.len() > 0 && text[0] == '-' && digits(text.skip(1)) {
        Some(-(decimal_value(text.skip(1)) as int))
    } else {
        None
    }
}

/// The identifier that a text stands for.
pub open spec fn identifier_read(text: Seq<char>) -> Option<i64> {
    match whole_number(text) {
        Some(value) => if i64::MIN <= value <= i64::MAX {
            Some(value as i64)
        } else {
            None
        },
        None => None,
    }
}

/// The count that a text stands for. No minus sign may stand before it.
pub open spec fn count_read(text: Seq<char>) -> Option<u16> {
    if text.len() > 0 && text[0] == '-' {
        None
    } else {
        match whole_number(text) {
            Some(value) => if value <= u16::MAX {
                Some(value as u16)
            } else {
                None
            },
            None => None,
        }
    }
}

/// The number of digits from a place on, where they are digits and the number is not too large to
/// be of use.
fn digits_from(characters: &[char], start: usize) -> (value: Option<u128>)
    requires
        start <= characters@.len(),
    ensures
        match value {
            Some(number) => digits(characters@.skip(start as int)) && number == decimal_value(
                characters@.skip(start as int),
            ),
            None => !digits(characters@.skip(start as int)) || decimal_value(
                characters@.skip(start as int),
            ) > 10_000_000_000_000_000_000,
        },
{
    let ghost text = characters@.skip(start as int);
    if start == characters.len() {
        return None;
    }
    let mut value: u128 = 0;
    let mut large = false;
    let mut at: usize = start;
    assert(text.take(0) =~= Seq::empty());
    while at < characters.len()
        invariant
            text == characters@.skip(start as int),
            start <= at <= characters.len(),
            forall|i: int| 0 <= i < at - start ==> digit(#[trigger] text[i]),
            !large ==> value == decimal_value(text.take(at - start)) && value
                <= 10_000_000_000_000_000_000,
            large ==> decimal_value(text.take(at - start)) > 10_000_000_000_000_000_000,
        decreases characters.len() - at,
    {
        let character = characters[at];
        assert(text[at - start] == character);
        if !('0' <= character && character <= '9') {
            assert(!digit(text[at - start]));
            return None;
        }
        proof {
            let next = text.take(at - start + 1);
            assert(next.drop_last() =~= text.take(at - start));
            assert(next.last() == character);
        }
        if !large {
            value = 10 * value + (character as u32 - 48) as u128;
            if value > 10_000_000_000_000_000_000 {
                large = true;
            }
        }
        at = at + 1;
    }
    assert(text.take(at - start) =~= text);
    if large {
        None
    } else {
        Some(value)
    }
}

proof fn lemma_signs(text: Seq<char>)
    ensures
        text.len() > 0 && (text[0] == '+' || text[0] == '-') ==> !digits(text),
{
    if text.len() > 0 && (text[0] == '+' || text[0] == '-') {
        assert(!digit(text[0]));
    }
}

/// The identifier that a text stands for.
pub fn parse_identifier(text: &str) -> (value: Option<i64>)
    ensures
        value == identifier_read(text@),
{
    let characters = chars_of(text);
    proof {
        lemma_signs(text@);
        assert(text@.skip(0) =~= text@);
    }
    if characters.len() == 0 {
        return None;
    }
    let first = characters[0];
    if first == '-' {
        return match digits_from(characters.as_slice(), 1) {
            None => None,
            Some(size) => if size <= 9_223_372_036_854_775_808 {
                Some((-(size as i128)) as i64)
            } else {
                None
            },
        };
    }
    let start: usize = if first == '+' {
        1
    } else {
        0
    };
    match digits_from(characters.as_slice(), start) {
        None => None,
        Some(size) => if size <= 9_223_372_036_854_775_807 {
            Some(size as i64)
        } else {
            None
        },
    }
}

/// The count that a text stands for.
pub fn parse_count(text: &str) -> (value: Option<u16>)
    ensures
        value == count_read(text@),
{
    let characters = chars_of(text);
    proof {
        lemma_signs(text@);
        assert(text@.skip(0) =~= text@);
    }
    if characters.len() == 0 || characters[0] == '-' {
        return None;
    }
    let start: usize = if characters[0] == '+' {
        1
    } else {
        0
    };
    match digits_from(characters.as_slice(), start) {
        None => None,
        Some(size) => if size <= 65_535 {
            Some(size as u16)
        } else {
            None
        },
    }
}

/// The truth value that a text stands for.
pub open spec fn truth_read(text: Seq<char>) -> Option<bool> {
    if text == "true"@ || text == "yes"@ || text == "1"@ {
        Some(true)
    } else if text == "false"@ || text == "no"@ || text == "0"@ {
        Some(false)
    } else {
        None
    }
}

/// The truth value that a text stands for.
pub fn parse_bool(value: &str) -> (result: Result<bool, CompanionError>)
    ensures
        result == match truth_read(value@) {
            Some(truth) => Ok::<bool, CompanionError>(truth),
            None => Err(CompanionError::NotBoolean),
        },
{
    if text_eq(value, "true") || text_eq(value, "yes") || text_eq(value, "1") {
        Ok(true)
    } else if text_eq(value, "false") || text_eq(value, "no") || text_eq(value, "0") {
        Ok(false)
    } else {
        Err(CompanionError::NotBoolean)
    }
}

/// What may be written, as a text says it.
pub open spec fn mode_read(text: Seq<char>) -> Option<WriteMode> {
    if text == "read-only"@ || text == "read_only"@ {
        Some(WriteMode::ReadOnly)
    } else if text == "todos-only"@ || text == "todos_only"@ {
        Some(WriteMode::TodosOnly)
    } else if text == "manage-lists"@ || text == "manage_lists"@ {
        Some(WriteMode::ManageLists)
    } else {
        None
    }
}

fn parse_mode(value: &str) -> (mode: Option<WriteMode>)
    ensures
        mode == mode_read(value@),
{
    if text_eq(value, "read-only") || text_eq(value, "read_only") {
        Some(WriteMode::ReadOnly)
    } else if text_eq(value, "todos-only") || text_eq(value, "todos_only") {
        Some(WriteMode::TodosOnly)
    } else if text_eq(value, "manage-lists") || text_eq(value, "manage_lists") {
        Some(WriteMode::ManageLists)
    } else {
        None
    }
}

/// The identifiers that several texts stand for, whatever blanks are around them.
pub open spec fn identifiers_read(parts: Seq<Seq<char>>) -> Option<Seq<i64>>
    decreases parts.len(),
{
    if parts.len() == 0 {
        Some(Seq::empty())
    } else {
        match (identifiers_read(parts.drop_last()), identifier_read(trimmed(parts.last()))) {
            (Some(front), Some(id)) => Some(front.push(id)),
            _ => None,
        }
    }
}

proof fn lemma_unreadable_stays(parts: Seq<Seq<char>>, end: int)
    requires
        0 <= end <= parts.len(),
        identifiers_read(parts.take(end)) is None,
    ensures
        identifiers_read(parts) is None,
    decreases parts.len() - end,
{
    if end == parts.len() {
        assert(parts.take(end) =~= parts);
    } else {
        assert(parts.take(end + 1).drop_last() =~= parts.take(end));
        lemma_unreadable_stays(parts, end + 1);
    }
}

fn parse_identifiers(value: &str) -> (ids: Option<Vec<i64>>)
    ensures
        identifiers_read(split(value@, ',')) == match ids {
            Some(list) => Some(list@),
            None => None,
        },
{
    let parts = split_text(value, ',');
    let ghost all = views(parts@);
    let mut ids: Vec<i64> = Vec::new();
    let mut at: usize = 0;
    assert(all.take(0) =~= Seq::empty());
    assert(ids@ =~= Seq::empty());
    while at < parts.len()
        invariant
            all == views(parts@),
            all == split(value@, ','),
            at <= parts.len(),
            identifiers_read(all.take(at as int)) == Some(ids@),
        decreases parts.len() - at,
    {
        let ghost next = all.take(at + 1);
        proof {
            assert(next.drop_last() =~= all.take(at as int));
            assert(next.last() == parts@[at as int]@);
            if identifiers_read(next) is None {
                lemma_unreadable_stays(all, at + 1);
            }
        }
        match parse_identifier(trim(parts[at].as_str()).as_str()) {
            None => {
                return None;
            },
            Some(id) => {
                ids.push(id);
            },
        }
        at = at + 1;
    }
    assert(all.take(at as int) =~= all);
    Some(ids)
}

/// A policy after an option was set.
pub open spec fn option_set(policy: PolicyView, option: Seq<char>, value: Seq<char>) -> Result<
    PolicyView,
    CompanionError,
> {
    if option == "--write-mode"@ {
        match mode_read(value) {
            Some(write_mode) => Ok(PolicyView { write_mode, ..policy }),
            None => Err(CompanionError::UnknownWriteMode),
        }
    } else if option == "--read-enabled"@ {
        match truth_read(value) {
            Some(read_enabled) => Ok(PolicyView { read_enabled, ..policy }),
            None => Err(CompanionError::NotBoolean),
        }
    } else if option == "--default-list"@ {
        if ascii_lowercase(value) == "none"@ {
            Ok(PolicyView { default_list: None, ..policy })
        } else {
            match list_name_fault(value) {
                Some(fault) => Err(fault),
                None => Ok(PolicyView { default_list: Some(trimmed(value)), ..policy }),
            }
        }
    } else if option == "--allow-inbox"@ {
        match truth_read(value) {
            Some(allow_inbox) => Ok(PolicyView { allow_inbox, ..policy }),
            None => Err(CompanionError::NotBoolean),
        }
    } else if option == "--allow-list-ids"@ {
        if ascii_lowercase(value) == "all"@ {
            Ok(PolicyView { allowed: Seq::empty(), ..policy })
        } else {
            match identifiers_read(split(value, ',')) {
                Some(allowed) => Ok(PolicyView { allowed, ..policy }),
                None => Err(CompanionError::NotIds),
            }
        }
    } else if option == "--include-completed"@ {
        match truth_read(value) {
            Some(include_completed) => Ok(PolicyView { include_completed, ..policy }),
            None => Err(CompanionError::NotBoolean),
        }
    } else if option == "--include-attachment-metadata"@ {
        match truth_read(value) {
            Some(include_attachment_metadata) => Ok(
                PolicyView { include_attachment_metadata, ..policy },
            ),
            None => Err(CompanionError::NotBoolean),
        }
    } else if option == "--max-results"@ {
        match count_read(value) {
            Some(max_results) => Ok(PolicyView { max_results, ..policy }),
            None => Err(CompanionError::NotInteger),
        }
    } else {
        Err(CompanionError::UnknownOption)
    }
}

/// Why arguments do not make a policy, and at which of them that shows.
#[derive(Debug, Clone, Copy, PartialEq, Eq, Structural)]
pub struct ConfigureFault {
    pub at: usize,
    pub error: CompanionError,
}

/// A policy after the options from a place on were set.
pub open spec fn options_set(policy: PolicyView, arguments: Seq<Seq<char>>, at: int) -> Result<
    PolicyView,
    (int, CompanionError),
>
    decreases arguments.len() - at,
{
    if at + 2 > arguments.len() {
        Ok(policy)
    } else {
        match option_set(policy, arguments[at], arguments[at + 1]) {
            Err(fault) => Err((at, fault)),
            Ok(next) => options_set(next, arguments, at + 2),
        }
    }
}

/// The policy that options make of one, where it is valid.
pub open spec fn configured(policy: PolicyView, arguments: Seq<Seq<char>>) -> Result<
    PolicyView,
    (int, CompanionError),
> {
    if arguments.len() % 2 != 0 {
        Err((arguments.len() as int, CompanionError::MissingValue))
    } else {
        match options_set(policy, arguments, 0) {
            Err(fault) => Err(fault),
            Ok(next) => match policy_fault(next) {
                Some(fault) => Err((arguments.len() as int, fault)),
                None => Ok(next),
            },
        }
    }
}

impl Policy {
    fn set_option(&mut self, option: &str, value: &str) -> (result: Result<(), CompanionError>)
        ensures
            match option_set(old(self)@, option@, value@) {
                Ok(next) => result is Ok && final(self)@ == next,
                Err(fault) => result == Err::<(), CompanionError>(fault),
            },
    {
        if text_eq(option, "--write-mode") {
            match parse_mode(value) {
                Some(mode) => {
                    self.write_mode = mode;
                    Ok(())
                },
                None => Err(CompanionError::UnknownWriteMode),
            }
        } else if text_eq(option, "--read-enabled") {
            match parse_bool(value) {
                Ok(truth) => {
                    self.read_enabled = truth;
                    Ok(())
                },
                Err(fault) => Err(fault),
            }
        } else if text_eq(option, "--default-list") {
            if text_eq(to_lowercase_ascii(value).as_str(), "none") {
                self.default_list = None;
                Ok(())
            } else {
                match validate_list_name(value) {
                    Ok(name) => {
                        self.default_list = Some(name);
                        Ok(())
                    },
                    Err(fault) => Err(fault),
                }
            }
        } else if text_eq(option, "--allow-inbox") {
            match parse_bool(value) {
                Ok(truth) => {
                    self.allow_inbox = truth;
                    Ok(())
                },
                Err(fault) => Err(fault),
            }
        } else if text_eq(option, "--allow-list-ids") {
            if text_eq(to_lowercase_ascii(value).as_str(), "all") {
                self.allowed_list_ids = Vec::new();
                assert(self@.allowed =~= Seq::empty());
                Ok(())
            } else {
                match parse_identifiers(value) {
                    Some(ids) => {
                        self.allowed_list_ids = ids;
                        Ok(())
                    },
                    None => Err(CompanionError::NotIds),
                }
            }
        } else if text_eq(option, "--include-completed") {
            match parse_bool(value) {
                Ok(truth) => {
                    self.include_completed = truth;
                    Ok(())
                },
                Err(fault) => Err(fault),
            }
        } else if text_eq(option, "--include-attachment-metadata") {
            match parse_bool(value) {
                Ok(truth) => {
                    self.include_attachment_metadata = truth;
                    Ok(())
                },
                Err(fault) => Err(fault),
            }
        } else if text_eq(option, "--max-results") {
            match parse_count(value) {
                Some(count) => {
                    self.max_results = count;
                    Ok(())
                },
                None => Err(CompanionError::NotInteger),
            }
        } else {
            Err(CompanionError::UnknownOption)
        }
    }

    /// The policy that options make of this one. Each option has a value, and the policy that comes
    /// out must be valid.
    pub fn configure(self, arguments: &[String]) -> (result: Result<Policy, ConfigureFault>)
        ensures
            match configured(self@, views(arguments@)) {
                Ok(next) => result matches Ok(policy) && policy@ == next,
                Err(fault) => result matches Err(found) && found.at == fault.0 && found.error
                    == fault.1,
            },
    {
        let ghost all = views(arguments@);
        let ghost before = self@;
        let count: usize = arguments.len();
        if count % 2 != 0 {
            return Err(ConfigureFault { at: count, error: CompanionError::MissingValue });
        }
        let mut policy = self;
        let mut at: usize = 0;
        while at < count
            invariant
                all == views(arguments@),
                before == self@,
                count == arguments@.len(),
                count % 2 == 0,
                at % 2 == 0,
                at <= count,
                options_set(policy@, all, at as int) == options_set(before, all, 0),
            decreases count - at,
        {
            assert(all[at as int] == arguments@[at as int]@);
            assert(all[at + 1] == arguments@[at + 1]@);
            match policy.set_option(arguments[at].as_str(), arguments[at + 1].as_str()) {
                Err(error) => {
                    return Err(ConfigureFault { at, error });
                },
                Ok(()) => {},
            }
            at = at + 2;
        }
        match policy.validate() {
            Err(error) => Err(ConfigureFault { at: count, error }),
            Ok(()) => Ok(policy),
        }
    }
}

/// A policy that options make is valid.
pub proof fn lemma_configured_is_valid(policy: PolicyView, arguments: Seq<Seq<char>>)
    ensures
        configured(policy, arguments) matches Ok(next) ==> policy_fault(next) is None,
{
}

} // verus!
