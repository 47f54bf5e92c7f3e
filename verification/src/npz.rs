//! Names of arrays in an archive.

use vstd::prelude::*;

verus! {

/// Whether `name` is a name of the array `expected` in an archive: the array's own
/// name, or that of the file it is stored in.
pub open spec fn is_name_of(name: Seq<char>, expected: Seq<char>) -> bool {
    name == expected || name == expected + ".npy"@
}

/// An array is found under its own name and under the name of its file, and under no
/// other.
pub proof fn law_names_of_an_array(name: Seq<char>, expected: Seq<char>)
    ensures
        is_name_of(name, expected) <==> name == expected || name == expected + seq![
            '.',
            'n',
            'p',
            'y',
        ],
{
    reveal_strlit(".npy");
    assert(".npy"@ == seq!['.', 'n', 'p', 'y']);
}

/// Whether the archive holds an array under the name `expected`, with or without
/// the file extension.
pub fn npz_has_name(names: &[String], expected: &str) -> (found: bool)
    ensures
        found == exists|i: int|
            0 <= i < names@.len() && is_name_of((#[trigger] names@[i])@, expected@),
{
    let plain: String = expected.to_owned();
    let file: String = expected.to_owned().concat(".npy");
    let mut i: usize = 0;
    while i < names.len()
        invariant
            i <= names@.len(),
            plain@ == expected@,
            file@ == expected@ + ".npy"@,
            forall|j: int| 0 <= j < i ==> !is_name_of((#[trigger] names@[j])@, expected@),
        decreases names@.len() - i,
    {
        if names[i] == plain || names[i] == file {
            return true;
        }
        i = i + 1;
    }
    false
}

} // verus!
