//! The names of temporary files and the moment an output is published.

use crate::error::{AppError, Reason};
use crate::text::{characters, text_pair};
use vstd::prelude::*;

verus! {

/// The end of the part of a path that begins at a place.
pub open spec fn part_end(path: Seq<char>, start: nat) -> nat
    decreases path.len() - start,
{
    if start >= path.len() {
        path.len()
    } else if path[start as int] == '/' {
        start
    } else {
        part_end(path, start + 1)
    }
}

/// Whether everything from a place on names the same file again: only
/// separators, and single dots between them.
pub open spec fn nothing_further(path: Seq<char>, start: nat) -> bool
    decreases path.len() - start,
{
    if start >= path.len() {
        true
    } else if path[start as int] == '/' {
        nothing_further(path, start + 1)
    } else {
        path[start as int] == '.' && (start + 1 == path.len() || path[start as int + 1] == '/')
            && nothing_further(path, start + 1)
    }
}

/// Whether a path names one direct child of a directory.
pub open spec fn direct_child(path: Seq<char>) -> bool {
    let end = part_end(path, 0);
    let first = path.take(end as int);
    &&& first.len() > 0
    &&& first != seq!['.']
    &&& first != seq!['.', '.']
    &&& nothing_further(path, end)
}

proof fn lemma_part_end(path: Seq<char>, start: nat)
    requires
        start <= path.len(),
    ensures
        start <= part_end(path, start) <= path.len(),
        forall|i: int| start <= i < part_end(path, start) ==> path[i] != '/',
    decreases path.len() - start,
{
    if start < path.len() && path[start as int] != '/' {
        lemma_part_end(path, start + 1);
    }
}

fn has_nothing_further(list: &[char], from: usize) -> (r: bool)
    ensures
        r == nothing_further(list@, from as nat),
{
    let mut i: usize = from;
    while i < list.len()
        invariant
            nothing_further(list@, from as nat) == nothing_further(list@, i as nat),
        decreases list@.len() - i,
    {
        if list[i] != '/' {
            if list[i] != '.' {
                return false;
            }
            if i + 1 < list.len() && list[i + 1] != '/' {
                return false;
            }
        }
        i = i + 1;
    }
    true
}

/// Whether a path names one direct child of a directory.
pub fn is_direct_child(path: &str) -> (r: bool)
    ensures
        r == direct_child(path@),
{
    let list = characters(path);
    let mut end: usize = 0;
    while end < list.len() && list[end] != '/'
        invariant
            list@ == path@,
            end <= list@.len(),
            part_end(path@, 0) == part_end(path@, end as nat),
        decreases list@.len() - end,
    {
        end = end + 1;
    }
    let ghost first = path@.take(end as int);
    if end == 0 {
        return false;
    }
    if end == 1 && list[0] == '.' {
        assert(first =~= seq!['.']);
        return false;
    }
    if end == 2 && list[0] == '.' && list[1] == '.' {
        assert(first =~= seq!['.', '.']);
        return false;
    }
    proof {
        if first == seq!['.'] {
            assert(path@[0] == first[0]);
        }
        if first == seq!['.', '.'] {
            assert(path@[0] == first[0]);
            assert(path@[1] == first[1]);
        }
    }
    has_nothing_further(list.as_slice(), end)
}

/// Refuses the name of a temporary file that would leave its directory.
pub fn check_file_name(name: &str) -> (r: Result<(), AppError>)
    ensures
        direct_child(name@) ==> r is Ok,
        !direct_child(name@) ==> r is Err && r->Err_0 is Usage && r->Err_0.text()
            == "invalid workspace file name: "@ + name@,
{
    if is_direct_child(name) {
        Ok(())
    } else {
        Err(AppError::Usage(Reason::Note(text_pair("invalid workspace file name: ", name))))
    }
}

/// An accepted name never begins with a separator or with two dots as its first
/// part, and behind a separator it holds only separators and single dots.
pub proof fn law_accepted_names_stay_inside(name: Seq<char>)
    requires
        direct_child(name),
    ensures
        name.len() > 0,
        name[0] != '/',
        !(name.len() >= 2 && name[0] == '.' && name[1] == '.' && (name.len() == 2 || name[2]
            == '/')),
        forall|i: int|
            0 <= i && i + 1 < name.len() && (#[trigger] name[i]) == '/' ==> name[i + 1] == '/'
                || name[i + 1] == '.',
{
    lemma_part_end(name, 0);
    let end = part_end(name, 0);
    let first = name.take(end as int);
    if name.len() >= 2 && name[0] == '.' && name[1] == '.' && (name.len() == 2 || name[2] == '/') {
        assert(part_end(name, 2) == 2);
        assert(part_end(name, 1) == 2);
        assert(first =~= seq!['.', '.']);
    }
    assert forall|i: int|
        0 <= i && i + 1 < name.len() && (#[trigger] name[i]) == '/' implies name[i + 1] == '/'
        || name[i + 1] == '.' by {
        lemma_rest(name, end, (i + 1) as nat);
    }
}

proof fn lemma_rest(path: Seq<char>, start: nat, place: nat)
    requires
        nothing_further(path, start),
        start <= place < path.len(),
    ensures
        path[place as int] == '/' || path[place as int] == '.',
    decreases place - start,
{
    if start < place {
        lemma_rest(path, start + 1, place);
    }
}

/// Refuses to publish an output that is missing, or that would replace a file
/// which has appeared meanwhile.
pub fn check_publication(
    partial_is_file: bool,
    final_exists: bool,
    overwrite: bool,
    partial: &str,
    destination: &str,
) -> (r: Result<(), AppError>)
    ensures
        !partial_is_file ==> r is Err && r->Err_0 is Mux && r->Err_0.text()
            == "verified partial output is missing: "@ + partial@,
        partial_is_file && final_exists && !overwrite ==> r is Err && r->Err_0 is Mux
            && r->Err_0.text()
            == "output appeared during rendering and overwrite is disabled: "@ + destination@,
        partial_is_file && (overwrite || !final_exists) ==> r is Ok,
{
    if !partial_is_file {
        return Err(
            AppError::Mux(
                Reason::Note(text_pair("verified partial output is missing: ", partial)),
            ),
        );
    }
    if final_exists && !overwrite {
        return Err(
            AppError::Mux(
                Reason::Note(
                    text_pair(
                        "output appeared during rendering and overwrite is disabled: ",
                        destination,
                    ),
                ),
            ),
        );
    }
    Ok(())
}

proof fn lemma_one_part(path: Seq<char>, start: nat)
    requires
        !path.contains('/'),
        start <= path.len(),
    ensures
        part_end(path, start) == path.len(),
    decreases path.len() - start,
{
    if start < path.len() {
        assert(path.contains(path[start as int]));
        lemma_one_part(path, start + 1);
    }
}

proof fn lemma_part_end_at(path: Seq<char>, start: nat, place: nat)
    requires
        start <= place < path.len(),
        path[place as int] == '/',
        !path.take(place as int).contains('/'),
    ensures
        part_end(path, start) == place,
    decreases place - start,
{
    if start < place {
        assert(path.take(place as int)[start as int] == path[start as int]);
        assert(path.take(place as int).contains(path[start as int]));
        lemma_part_end_at(path, start + 1, place);
    }
}

/// A name without a separator is accepted unless it is empty or names the directory or the
/// one above it. A separator behind it changes nothing, nor does a dot behind that; any
/// other character there makes it refused, whatever follows.
pub proof fn law_names_of_one_part_are_accepted(name: Seq<char>, c: char, rest: Seq<char>)
    requires
        !name.contains('/'),
    ensures
        direct_child(name) <==> name.len() > 0 && name != "."@ && name != ".."@,
        direct_child(name + seq!['/']) == direct_child(name),
        direct_child(name + seq!['/', '.']) == direct_child(name),
        !direct_child(name + seq!['/', '.', '.']),
        c != '/' && c != '.' ==> !direct_child(name + seq!['/', c] + rest),
{
    reveal_strlit(".");
    reveal_strlit("..");
    assert("."@ =~= seq!['.']);
    assert(".."@ =~= seq!['.', '.']);
    lemma_one_part(name, 0);
    assert(name.take(name.len() as int) =~= name);
    let n = name.len();
    let slashed = name + seq!['/'];
    assert(slashed.take(n as int) =~= name);
    lemma_part_end_at(slashed, 0, n);
    assert(nothing_further(slashed, n + 1));
    let dotted = name + seq!['/', '.'];
    assert(dotted.take(n as int) =~= name);
    lemma_part_end_at(dotted, 0, n);
    assert(nothing_further(dotted, n + 2));
    assert(dotted[n as int + 1] == '.');
    assert(nothing_further(dotted, n + 1));
    let above = name + seq!['/', '.', '.'];
    assert(above.take(n as int) =~= name);
    lemma_part_end_at(above, 0, n);
    assert(above[n as int + 1] == '.' && above[n as int + 2] == '.');
    assert(!nothing_further(above, n + 1));
    let further = name + seq!['/', c] + rest;
    assert(further.take(n as int) =~= name);
    assert(further[n as int] == '/' && further[n as int + 1] == c);
    lemma_part_end_at(further, 0, n);
    if c != '/' && c != '.' {
        assert(!nothing_further(further, n + 1));
    }
}

} // verus!
