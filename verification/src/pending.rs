//! Lists of directories that wait for their panes.

use crate::cwd::Cwd;
use crate::events::cwds_view;
use crate::lists::lemma_filter_step;
use crate::model::{about, not_about, only_panes, upserted};
use std::collections::HashSet;
use vstd::prelude::*;

verus! {

broadcast use vstd::std_specs::hash::group_hash_axioms;

/// Makes a directory the latest word on a terminal: earlier ones go, and it comes last.
pub fn upsert_cwd(list: &mut Vec<(u32, Cwd)>, terminal_id: u32, cwd: Cwd)
    ensures
        cwds_view(final(list)@) == upserted(cwds_view(old(list)@), terminal_id, cwd@),
{
    let ghost all = cwds_view(list@);
    let ghost keep = not_about(terminal_id);
    let ghost mut seen: int = 0;
    let mut i: usize = 0;
    proof {
        reveal(Seq::filter);
        assert(all.take(0).filter(keep) =~= Seq::empty());
        assert(cwds_view(list@) =~= all.take(0).filter(keep) + all.skip(0));
    }
    while i < list.len()
        invariant
            0 <= seen <= all.len(),
            keep == not_about(terminal_id),
            i == all.take(seen).filter(keep).len(),
            cwds_view(list@) == all.take(seen).filter(keep) + all.skip(seen),
        decreases list.len() - i,
    {
        proof {
            assert(cwds_view(list@)[i as int] == all.skip(seen)[0]);
            assert(cwds_view(list@)[i as int].0 == list@[i as int].0);
            lemma_filter_step(all, seen, keep);
        }
        let ghost before = list@;
        if list[i].0 == terminal_id {
            let _ = list.remove(i);
            proof {
                assert(cwds_view(list@) =~= cwds_view(before).remove(i as int));
                assert(cwds_view(list@) =~= all.take(seen + 1).filter(keep) + all.skip(seen + 1));
            }
        } else {
            proof {
                assert(cwds_view(list@) =~= all.take(seen + 1).filter(keep) + all.skip(seen + 1));
            }
            i = i + 1;
        }
        proof {
            seen = seen + 1;
        }
    }
    proof {
        assert(all.skip(seen).len() == 0);
        assert(all.take(seen) =~= all);
        assert(cwds_view(list@) =~= all.filter(keep));
    }
    list.push((terminal_id, cwd));
    assert(cwds_view(list@) =~= upserted(all, terminal_id, cwd@));
}

/// Keeps the directories of the given terminals only.
pub(crate) fn retain_cwds(list: &mut Vec<(u32, Cwd)>, terminals: &HashSet<u32>)
    ensures
        cwds_view(final(list)@) == only_panes(cwds_view(old(list)@), terminals@),
{
    let ghost all = cwds_view(list@);
    let ghost keep = about(terminals@);
    let ghost mut seen: int = 0;
    let mut i: usize = 0;
    proof {
        reveal(Seq::filter);
        assert(all.take(0).filter(keep) =~= Seq::empty());
        assert(cwds_view(list@) =~= all.take(0).filter(keep) + all.skip(0));
    }
    while i < list.len()
        invariant
            0 <= seen <= all.len(),
            keep == about(terminals@),
            i == all.take(seen).filter(keep).len(),
            cwds_view(list@) == all.take(seen).filter(keep) + all.skip(seen),
        decreases list.len() - i,
    {
        proof {
            assert(cwds_view(list@)[i as int] == all.skip(seen)[0]);
            assert(cwds_view(list@)[i as int].0 == list@[i as int].0);
            lemma_filter_step(all, seen, keep);
        }
        let ghost before = list@;
        if !terminals.contains(&list[i].0) {
            let _ = list.remove(i);
            proof {
                assert(cwds_view(list@) =~= cwds_view(before).remove(i as int));
                assert(cwds_view(list@) =~= all.take(seen + 1).filter(keep) + all.skip(seen + 1));
            }
        } else {
            proof {
                assert(cwds_view(list@) =~= all.take(seen + 1).filter(keep) + all.skip(seen + 1));
            }
            i = i + 1;
        }
        proof {
            seen = seen + 1;
        }
    }
    proof {
        assert(all.skip(seen).len() == 0);
        assert(all.take(seen) =~= all);
        assert(cwds_view(list@) =~= only_panes(all, terminals@));
    }
}

} // verus!
