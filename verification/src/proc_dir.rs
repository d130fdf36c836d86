//! Which entries of `/proc` are process directories, and where a process's
//! status file lies.
use vstd::prelude::*;
use crate::text;
use crate::text::chars_of;

verus! {

/// The names among `names` that consist of ASCII digits only, in their order.
pub open spec fn pid_names(names: Seq<Seq<char>>) -> Seq<Seq<char>>
    decreases names.len(),
{
    if names.len() == 0 {
        Seq::empty()
    } else if text::all_digits(names.last()) {
        pid_names(names.drop_last()).push(names.last())
    } else {
        pid_names(names.drop_last())
    }
}

/// Whether a directory name is a process id: every character an ASCII digit.
pub fn is_pid_folder_name(name: &str) -> (valid: bool)
    ensures
        valid == text::all_digits(name@),
{
    let chars = chars_of(name);
    let mut i: usize = 0;
    while i < chars.len()
        invariant
            chars@ == name@,
            i <= chars@.len(),
            forall|j: int| 0 <= j < i ==> #[trigger] text::is_digit(chars@[j]),
        decreases chars.len() - i,
    {
        let c = chars[i];
        if !('0' <= c && c <= '9') {
            assert(!text::is_digit(name@[i as int]));
            return false;
        }
        i = i + 1;
    }
    true
}

/// Keeps, in order, the directory names that are process ids.
pub fn pid_folder_names(folder_names: Vec<String>) -> (pids: Vec<String>)
    ensures
        pids.deep_view() == pid_names(folder_names.deep_view()),
{
    let mut pids: Vec<String> = Vec::new();
    let ghost names = folder_names.deep_view();
    let n = folder_names.len();
    let mut i: usize = 0;
    while i < n
        invariant
            n == folder_names.len(),
            names == folder_names.deep_view(),
            i <= n,
            pids.deep_view() == pid_names(names.take(i as int)),
        decreases n - i,
    {
        assert(names.take(i + 1).drop_last() =~= names.take(i as int));
        assert(names[i as int] == folder_names[i as int]@);
        if is_pid_folder_name(folder_names[i].as_str()) {
            let ghost before = pids.deep_view();
            pids.push(folder_names[i].clone());
            assert(pids.deep_view() =~= before.push(names[i as int]));
        }
        i = i + 1;
    }
    assert(names.take(n as int) =~= names);
    pids
}

/// The path of the status file of the process whose directory is `pid`:
/// `/proc/`, then `pid`, then `/status`.
pub fn status_file_path(pid: &str) -> (path: String)
    ensures
        path@ == seq!['/', 'p', 'r', 'o', 'c', '/'] + pid@ + seq![
            '/',
            's',
            't',
            'a',
            't',
            'u',
            's',
        ],
{
    proof {
        reveal_strlit("/proc/");
        reveal_strlit("/status");
    }
    let mut path = String::from_str("/proc/");
    path.append(pid);
    path.append("/status");
    assert("/proc/"@ =~= seq!['/', 'p', 'r', 'o', 'c', '/']);
    assert("/status"@ =~= seq!['/', 's', 't', 'a', 't', 'u', 's']);
    path
}

/// Every name that the filter keeps is a process id taken from the input, and
/// filtering the result again keeps all of it.
pub proof fn lemma_pid_names_are_pids(names: Seq<Seq<char>>)
    ensures
        forall|i: int|
            0 <= i < pid_names(names).len() ==> text::all_digits(#[trigger] pid_names(names)[i])
                && names.contains(pid_names(names)[i]),
        pid_names(pid_names(names)) == pid_names(names),
    decreases names.len(),
{
    if names.len() > 0 {
        let rest = names.drop_last();
        lemma_pid_names_are_pids(rest);
        let p = pid_names(rest);
        assert forall|i: int| 0 <= i < p.len() implies names.contains(#[trigger] p[i]) by {
            let j = choose|j: int| 0 <= j < rest.len() && rest[j] == p[i];
            assert(names[j] == p[i]);
        }
        if text::all_digits(names.last()) {
            assert(p.push(names.last()).drop_last() =~= p);
            assert(names[names.len() - 1] == names.last());
        }
    }
}

/// A name is kept by the process-directory filter exactly when it is one of
/// the given names and consists of ASCII digits only, whatever its length.
pub proof fn lemma_pid_names_membership(names: Seq<Seq<char>>, name: Seq<char>)
    ensures
        pid_names(names).contains(name) <==> (names.contains(name) && text::all_digits(name)),
    decreases names.len(),
{
    if names.len() > 0 {
        let rest = names.drop_last();
        lemma_pid_names_membership(rest, name);
        lemma_pid_names_are_pids(names);
        let p = pid_names(rest);
        if names.contains(name) && text::all_digits(name) {
            let j = choose|j: int| 0 <= j < names.len() && names[j] == name;
            if j < names.len() - 1 {
                assert(rest[j] == name);
                let k = choose|k: int| 0 <= k < p.len() && p[k] == name;
                if text::all_digits(names.last()) {
                    assert(p.push(names.last())[k] == name);
                }
            } else {
                assert(names.last() == name);
                assert(p.push(names.last())[p.len() as int] == name);
            }
        }
        if pid_names(names).contains(name) {
            let k = choose|k: int| 0 <= k < pid_names(names).len() && pid_names(names)[k] == name;
            assert(text::all_digits(pid_names(names)[k]));
        }
    }
}

/// The process-directory filter is the order-keeping filter of the names that
/// consist of ASCII digits only.
pub proof fn lemma_pid_names_is_filter(names: Seq<Seq<char>>)
    ensures
        pid_names(names) == names.filter(|n: Seq<char>| text::all_digits(n)),
    decreases names.len(),
{
    reveal_with_fuel(Seq::filter, 1);
    if names.len() > 0 {
        lemma_pid_names_is_filter(names.drop_last());
    }
    assert(pid_names(names) =~= names.filter(|n: Seq<char>| text::all_digits(n)));
}

} // verus!
