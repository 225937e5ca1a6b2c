use vstd::prelude::*;

verus! {

/// The entry of the printer list that a slice configuration belongs to,
/// given for each known printer whether its resolution and build volume are
/// those of the configuration: one past the index of the first printer that
/// matches, or 0 (the custom entry) when none does.
pub fn selected_printer(matches: &Vec<bool>) -> (choice: usize)
    ensures
        choice == 0 <==> (forall|i: int| 0 <= i < matches.len() ==> !#[trigger] matches@[i]),
        choice > 0 ==> choice <= matches.len() && matches@[choice - 1],
        choice > 0 ==> (forall|i: int| 0 <= i < choice - 1 ==> !#[trigger] matches@[i]),
{
    let mut i: usize = 0;
    while i < matches.len()
        invariant
            i <= matches.len(),
            forall|k: int| 0 <= k < i ==> !#[trigger] matches@[k],
        decreases matches.len() - i,
    {
        if matches[i] {
            return i + 1;
        }
        i = i + 1;
    }
    0
}

} // verus!
