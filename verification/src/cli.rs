//! The command model, and the decisions the command loop makes before it
//! touches the store: validating a description, assigning the next id, and
//! reading a confirmation.

use vstd::prelude::*;

use crate::task::Task;

verus! {

/// One invocation of the tool.
pub struct Cli {
    pub command: Commands,
}

/// The subcommands the tool understands. Ids handed to `Complete` and
/// `Delete` are at least 1, enforced where arguments are parsed.
pub enum Commands {
    /// Add a new task.
    Add { description: String },
    /// List tasks; `all` includes the completed ones.
    List { all: bool },
    /// Mark a task as complete.
    Complete { id: u32 },
    /// Delete a task.
    Delete { id: u32 },
    /// Delete every task by removing the backing file, after confirmation.
    Nuke,
}

/// A whitespace character: the Unicode White_Space set, which is what
/// trimming an input removes.
pub open spec fn is_space(c: char) -> bool {
    ||| c as u32 == 0x09
    ||| c as u32 == 0x0A
    ||| c as u32 == 0x0B
    ||| c as u32 == 0x0C
    ||| c as u32 == 0x0D
    ||| c as u32 == 0x20
    ||| c as u32 == 0x85
    ||| c as u32 == 0xA0
    ||| c as u32 == 0x1680
    ||| 0x2000 <= c as u32 <= 0x200A
    ||| c as u32 == 0x2028
    ||| c as u32 == 0x2029
    ||| c as u32 == 0x202F
    ||| c as u32 == 0x205F
    ||| c as u32 == 0x3000
}

/// Tests a character against the Unicode White_Space set.
fn is_space_char(c: char) -> (r: bool)
    ensures
        r == is_space(c),
{
    let u = c as u32;
    u == 0x09 || u == 0x0A || u == 0x0B || u == 0x0C || u == 0x0D || u == 0x20 || u == 0x85 || u
        == 0xA0 || u == 0x1680 || (0x2000 <= u && u <= 0x200A) || u == 0x2028 || u == 0x2029 || u
        == 0x202F || u == 0x205F || u == 0x3000
}

/// Whether a description is blank - empty or nothing but whitespace - and
/// so must be rejected before a task is built from it.
pub fn description_is_blank(s: &str) -> (r: bool)
    ensures
        r == forall|k: int| 0 <= k < s@.len() ==> is_space(#[trigger] s@[k]),
{
    let n = s.unicode_len();
    let mut i: usize = 0;
    while i < n
        invariant
            n == s@.len(),
            i <= n,
            forall|k: int| 0 <= k < i ==> is_space(#[trigger] s@[k]),
        decreases n - i,
    {
        let c = s.get_char(i);
        if !is_space_char(c) {
            return false;
        }
        i = i + 1;
    }
    true
}

/// The id for the next task: one more than the count of stored tasks.
pub fn next_id(tasks: &Vec<Task>) -> (r: u32)
    requires
        tasks@.len() < u32::MAX,
    ensures
        r as int == tasks@.len() + 1,
{
    (tasks.len() as u32) + 1
}

/// Whether the reply to the confirmation prompt says yes: exactly one
/// non-whitespace character, and it is `y` or `Y`. Anything else cancels.
pub fn confirm_nuke(input: &str) -> (r: bool)
    ensures
        r == exists|k: int|
            0 <= k < input@.len() && (input@[k] == 'y' || input@[k] == 'Y') && (forall|j: int|
                0 <= j < input@.len() && j != k ==> is_space(#[trigger] input@[j])),
{
    let n = input.unicode_len();
    let mut i: usize = 0;
    let mut seen: usize = 0;
    let mut yes = false;
    let ghost mut pos: int = 0;
    while i < n
        invariant
            n == input@.len(),
            i <= n,
            seen == 0 ==> forall|k: int| 0 <= k < i ==> is_space(#[trigger] input@[k]),
            seen == 1 ==> 0 <= pos < i && !is_space(input@[pos]) && (forall|j: int|
                0 <= j < i && j != pos ==> is_space(#[trigger] input@[j])) && (yes == (input@[pos]
                == 'y' || input@[pos] == 'Y')),
            seen >= 2 ==> exists|k1: int, k2: int|
                0 <= k1 < k2 < i && !is_space(#[trigger] input@[k1]) && !is_space(
                    #[trigger] input@[k2],
                ),
        decreases n - i,
    {
        let c = input.get_char(i);
        if !is_space_char(c) {
            if seen == 0 {
                proof {
                    pos = i as int;
                }
                yes = c == 'y' || c == 'Y';
                seen = 1;
            } else if seen == 1 {
                proof {
                    assert(!is_space(input@[pos]) && !is_space(input@[i as int]));
                }
                seen = 2;
            }
        }
        i = i + 1;
    }
    if seen == 1 && yes {
        proof {
            assert(0 <= pos < input@.len() && (input@[pos] == 'y' || input@[pos] == 'Y') && (
            forall|j: int| 0 <= j < input@.len() && j != pos ==> is_space(#[trigger] input@[j])));
        }
        true
    } else {
        proof {
            if exists|k: int|
                0 <= k < input@.len() && (input@[k] == 'y' || input@[k] == 'Y') && (forall|j: int|
                    0 <= j < input@.len() && j != k ==> is_space(#[trigger] input@[j])) {
                let k = choose|k: int|
                    0 <= k < input@.len() && (input@[k] == 'y' || input@[k] == 'Y') && (forall|
                        j: int,
                    |
                        0 <= j < input@.len() && j != k ==> is_space(#[trigger] input@[j]));
                if seen == 0 {
                    assert(is_space(input@[k]));
                    assert(false);
                } else if seen == 1 {
                    assert(k == pos);
                    assert(false);
                } else {
                    let (k1, k2) = choose|k1: int, k2: int|
                        0 <= k1 < k2 < input@.len() && !is_space(#[trigger] input@[k1])
                            && !is_space(#[trigger] input@[k2]);
                    assert(k1 != k || k2 != k);
                    assert(false);
                }
            }
        }
        false
    }
}

} // verus!
