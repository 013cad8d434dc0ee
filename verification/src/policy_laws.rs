//! What the settings of an agent's policy mean.

use vstd::prelude::*;
use vstd::string::*;

use crate::agent::{search_told, todo_added, AddTodoRequest, SearchRequest};
use crate::agent_laws::{lemma_search_finds, may_use};
use crate::companion::{
    count_read, default_policy, digits, identifier_read, limit_of, option_set, truth_read,
    whole_number, CompanionError, PolicyView, WriteMode,
};
use crate::limits::MAX_SECTION_CHARS;
use crate::notebook::NotebookView;
use crate::text::{decimal, lemma_decimal, trimmed};

verus! {

/// No more results are given than are asked for or than the policy gives, and never none.
pub proof fn lemma_limit(policy: PolicyView, requested: Option<u16>)
    requires
        1 <= policy.max_results <= 200,
    ensures
        requested is None ==> limit_of(policy, requested) == policy.max_results,
        requested matches Some(count) ==> limit_of(policy, requested) == if count == 0 {
            1
        } else if count <= policy.max_results {
            count as int
        } else {
            policy.max_results as int
        },
{
}

/// Unless something else is said, an agent may read open notes of the inbox and of every list, and
/// write nothing.
pub proof fn lemma_default_reads(
    notebook: NotebookView,
    list: Option<i64>,
    request: SearchRequest,
    written: AddTodoRequest,
    now: i64,
)
    ensures
        may_use(default_policy(), list),
        default_policy().read_enabled,
        limit_of(default_policy(), None) == 50,
        todo_added(default_policy(), notebook, written, now) is Err,
        search_told(default_policy(), notebook, request) matches Ok(items) ==> forall|i: int|
            0 <= i < items.len() ==> !(#[trigger] items[i]).note.done,
{
    lemma_search_finds(default_policy(), notebook, request);
}

proof fn lemma_digits_read(n: nat)
    ensures
        digits(decimal(n)),
        whole_number(decimal(n)) == Some(n as int),
{
    lemma_decimal(n);
}

/// A number that was written out is read back.
pub proof fn lemma_numbers_read_back(n: i64)
    ensures
        n >= 0 ==> identifier_read(decimal(n as nat)) == Some(n),
        n > 0 ==> identifier_read(seq!['-'] + decimal(n as nat)) == Some((-n) as i64),
        n >= 0 ==> identifier_read(seq!['+'] + decimal(n as nat)) == Some(n),
        0 <= n <= u16::MAX ==> count_read(decimal(n as nat)) == Some(n as u16),
        n > u16::MAX ==> count_read(decimal(n as nat)) is None,
{
    if n >= 0 {
        let text = decimal(n as nat);
        lemma_digits_read(n as nat);
        lemma_decimal(n as nat);
        assert('0' <= text[0] <= '9');
        let minus = seq!['-'] + text;
        let plus = seq!['+'] + text;
        assert(minus.skip(1) =~= text);
        assert(plus.skip(1) =~= text);
        assert(minus[0] == '-' && plus[0] == '+');
        assert(!digits(minus)) by {
            assert(!crate::companion::digit(minus[0]));
        }
        assert(!digits(plus)) by {
            assert(!crate::companion::digit(plus[0]));
        }
    }
}

proof fn lemma_option_names()
    ensures
        "--write-mode"@ != "--read-enabled"@,
        "--write-mode"@ != "--allow-inbox"@,
        "--write-mode"@ != "--include-completed"@,
        "--write-mode"@ != "--include-attachment-metadata"@,
        "--write-mode"@ != "--max-results"@,
        "--write-mode"@ != "--default-list"@,
        "--write-mode"@ != "--allow-list-ids"@,
        "--read-enabled"@ != "--allow-inbox"@,
        "--read-enabled"@ != "--include-completed"@,
        "--read-enabled"@ != "--include-attachment-metadata"@,
        "--read-enabled"@ != "--max-results"@,
        "--read-enabled"@ != "--default-list"@,
        "--read-enabled"@ != "--allow-list-ids"@,
        "--default-list"@ != "--allow-inbox"@,
        "--default-list"@ != "--allow-list-ids"@,
        "--default-list"@ != "--include-completed"@,
        "--default-list"@ != "--include-attachment-metadata"@,
        "--default-list"@ != "--max-results"@,
        "--allow-inbox"@ != "--allow-list-ids"@,
        "--allow-inbox"@ != "--include-completed"@,
        "--allow-inbox"@ != "--include-attachment-metadata"@,
        "--allow-inbox"@ != "--max-results"@,
        "--allow-list-ids"@ != "--include-completed"@,
        "--allow-list-ids"@ != "--include-attachment-metadata"@,
        "--allow-list-ids"@ != "--max-results"@,
        "--include-completed"@ != "--include-attachment-metadata"@,
        "--include-completed"@ != "--max-results"@,
        "--include-attachment-metadata"@ != "--max-results"@,
{
    reveal_strlit("--write-mode");
    reveal_strlit("--read-enabled");
    reveal_strlit("--default-list");
    reveal_strlit("--allow-inbox");
    reveal_strlit("--allow-list-ids");
    reveal_strlit("--include-completed");
    reveal_strlit("--include-attachment-metadata");
    reveal_strlit("--max-results");
    assert("--write-mode"@[2] == 'w');
    assert("--read-enabled"@[2] == 'r');
    assert("--default-list"@[2] == 'd');
    assert("--allow-inbox"@[2] == 'a');
    assert("--allow-list-ids"@[2] == 'a');
    assert("--include-completed"@[2] == 'i');
    assert("--include-attachment-metadata"@[2] == 'i');
    assert("--max-results"@[2] == 'm');
    assert("--allow-inbox"@.len() == 13);
    assert("--allow-list-ids"@.len() == 16);
    assert("--include-completed"@.len() == 19);
    assert("--include-attachment-metadata"@.len() == 29);
}

/// The words that say yes.
pub open spec fn says_yes(text: Seq<char>) -> bool {
    text == "true"@ || text == "yes"@ || text == "1"@
}

/// The words that say no.
pub open spec fn says_no(text: Seq<char>) -> bool {
    text == "false"@ || text == "no"@ || text == "0"@
}

proof fn lemma_yes_and_no(text: Seq<char>)
    ensures
        truth_read(text) == Some(true) <==> says_yes(text),
        truth_read(text) == Some(false) <==> says_no(text),
        says_yes(text) ==> !says_no(text),
{
    reveal_strlit("true");
    reveal_strlit("yes");
    reveal_strlit("1");
    reveal_strlit("false");
    reveal_strlit("no");
    reveal_strlit("0");
    assert("true"@.len() == 4);
    assert("yes"@.len() == 3);
    assert("1"@[0] == '1');
    assert("false"@.len() == 5);
    assert("no"@.len() == 2);
    assert("0"@[0] == '0');
}

/// An option of the policy sets what it names to what is said, and leaves everything else as it was;
/// what cannot be read is refused.
pub proof fn lemma_option_sets(policy: PolicyView, option: Seq<char>, value: Seq<char>)
    ensures
        option == "--read-enabled"@ ==> match option_set(policy, option, value) {
            Ok(next) => next == (PolicyView { read_enabled: says_yes(value), ..policy }) && (
            says_yes(value) || says_no(value)),
            Err(_) => !says_yes(value) && !says_no(value),
        },
        option == "--allow-inbox"@ ==> match option_set(policy, option, value) {
            Ok(next) => next == (PolicyView { allow_inbox: says_yes(value), ..policy }) && (
            says_yes(value) || says_no(value)),
            Err(_) => !says_yes(value) && !says_no(value),
        },
        option == "--include-completed"@ ==> match option_set(policy, option, value) {
            Ok(next) => next == (PolicyView { include_completed: says_yes(value), ..policy }) && (
            says_yes(value) || says_no(value)),
            Err(_) => !says_yes(value) && !says_no(value),
        },
        option == "--include-attachment-metadata"@ ==> match option_set(policy, option, value) {
            Ok(next) => next == (PolicyView {
                include_attachment_metadata: says_yes(value),
                ..policy
            }) && (says_yes(value) || says_no(value)),
            Err(_) => !says_yes(value) && !says_no(value),
        },
        option == "--max-results"@ ==> forall|n: u16|
            value == #[trigger] decimal(n as nat) ==> option_set(policy, option, value) == Ok::<
                PolicyView,
                CompanionError,
            >(PolicyView { max_results: n, ..policy }),
        option == "--write-mode"@ ==> match option_set(policy, option, value) {
            Ok(next) => {
                &&& next == (PolicyView { write_mode: next.write_mode, ..policy })
                &&& match next.write_mode {
                    WriteMode::ReadOnly => value == "read-only"@ || value == "read_only"@,
                    WriteMode::TodosOnly => value == "todos-only"@ || value == "todos_only"@,
                    WriteMode::ManageLists => value == "manage-lists"@ || value
                        == "manage_lists"@,
                }
            },
            Err(_) => value != "read-only"@ && value != "todos-only"@ && value != "manage-lists"@,
        },
        option == "--default-list"@ ==> match option_set(policy, option, value) {
            Ok(next) => next == (PolicyView { default_list: next.default_list, ..policy }) && (
            next.default_list matches Some(name) ==> name == trimmed(value) && 0 < name.len()
                <= MAX_SECTION_CHARS),
            Err(_) => true,
        },
        option == "--allow-list-ids"@ ==> match option_set(policy, option, value) {
            Ok(next) => next == (PolicyView { allowed: next.allowed, ..policy }),
            Err(_) => true,
        },
{
    lemma_option_names();
    lemma_yes_and_no(value);
    if option == "--max-results"@ {
        assert forall|n: u16| value == #[trigger] decimal(n as nat) implies option_set(
            policy,
            option,
            value,
        ) == Ok::<PolicyView, CompanionError>(PolicyView { max_results: n, ..policy }) by {
            lemma_numbers_read_back(n as i64);
        }
    }
}

} // verus!
