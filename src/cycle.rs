use vstd::prelude::*;

verus! {

/// The tab that becomes active when a pane holding `tab_count` tabs is asked
/// to move to its next tab while `active` is shown: the following one, or
/// the first after the last. A pane without tabs has none to show.
pub fn next_active_tab(active: usize, tab_count: usize) -> (r: Option<usize>)
    ensures
        tab_count == 0 <==> r is None,
        tab_count > 0 && active < tab_count ==> r == Some(((active + 1) % (tab_count as int)) as usize),
        tab_count > 0 && active >= tab_count ==> r == Some(0usize),
{
    if tab_count == 0 {
        None
    } else if active >= tab_count - 1 {
        proof {
            if active < tab_count {
                vstd::arithmetic::div_mod::lemma_mod_self_0(tab_count as int);
            }
        }
        Some(0)
    } else {
        proof {
            vstd::arithmetic::div_mod::lemma_small_mod((active + 1) as nat, tab_count as nat);
        }
        Some(active + 1)
    }
}

} // verus!
