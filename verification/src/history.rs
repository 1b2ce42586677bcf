//! The shell's command history: the most recent command group first, at most
//! `HISTORY_NUMBER + 1` of them.
use vstd::prelude::*;
use crate::command::{CommandGroup, GroupV};
use std::collections::VecDeque;

verus! {

/// How many command groups the history keeps besides the latest one.
pub const HISTORY_NUMBER: usize = 10;

/// The command groups run so far, the most recent first.
pub struct History {
    history: VecDeque<CommandGroup>,
}

/// The abstract values of the groups of a deque.
pub open spec fn groups_view(s: Seq<CommandGroup>) -> Seq<GroupV> {
    s.map_values(|g: CommandGroup| g@)
}

/// The history after `g` was added to `h`: `g` first, then the entries of `h`,
/// the oldest dropped beyond `HISTORY_NUMBER + 1` entries.
pub open spec fn history_after_add(h: Seq<GroupV>, g: GroupV) -> Seq<GroupV> {
    let s = seq![g] + h;
    if s.len() > HISTORY_NUMBER + 1 {
        s.take(HISTORY_NUMBER + 1)
    } else {
        s
    }
}

/// The `n`-th entry of `h` (0 is the most recent), if there is one.
pub open spec fn history_entry(h: Seq<GroupV>, n: int) -> Option<GroupV> {
    if 0 <= n < h.len() {
        Some(h[n])
    } else {
        None
    }
}

impl View for History {
    type V = Seq<GroupV>;

    closed spec fn view(&self) -> Seq<GroupV> {
        groups_view(self.history@)
    }
}

impl History {
    #[verifier::type_invariant]
    closed spec fn bounded(self) -> bool {
        self.history@.len() <= HISTORY_NUMBER + 1
    }

    /// An empty history.
    pub fn new() -> (r: History)
        ensures
            r@ == Seq::<GroupV>::empty(),
    {
        let r = History { history: VecDeque::new() };
        assert(r@ =~= Seq::<GroupV>::empty());
        r
    }

    /// Adds `command_group` as the most recent entry, dropping the oldest
    /// entry when the history would hold more than `HISTORY_NUMBER + 1`.
    pub fn add_history(&mut self, command_group: CommandGroup)
        ensures
            final(self)@ == history_after_add(old(self)@, command_group@),
            old(self)@.len() <= HISTORY_NUMBER + 1,
    {
        proof {
            use_type_invariant(&*self);
        }
        let ghost g = command_group@;
        let ghost before = self@;
        let mut h: VecDeque<CommandGroup> = VecDeque::new();
        std::mem::swap(&mut h, &mut self.history);
        assert(groups_view(h@) == before);
        h.push_front(command_group);
        assert(groups_view(h@) == seq![g] + before);
        while h.len() > HISTORY_NUMBER + 1
            invariant
                h@.len() <= HISTORY_NUMBER + 2,
                groups_view(h@) == (seq![g] + before).take(h@.len() as int),
                before.len() + 1 >= h@.len(),
                before.len() <= HISTORY_NUMBER + 1,
                h@.len() == before.len() + 1 || h@.len() >= HISTORY_NUMBER + 1,
            decreases h@.len(),
        {
            let ghost pre = h@;
            h.pop_back();
            assert(groups_view(h@) == groups_view(pre).drop_last());
        }
        self.history = h;
        assert(self@ =~= history_after_add(before, g));
    }

    /// The entries from the oldest (the highest position) to the most recent
    /// (position 0), each with its position.
    pub fn all_history(&self) -> (r: Vec<(usize, &CommandGroup)>)
        ensures
            r@.len() == self@.len(),
            self@.len() <= HISTORY_NUMBER + 1,
            forall|k: int|
                0 <= k < r@.len() ==> (#[trigger] r@[k]).0 == self@.len() - 1 - k && r@[k].1@
                    == self@[self@.len() - 1 - k],
    {
        proof {
            use_type_invariant(self);
        }
        let mut r: Vec<(usize, &CommandGroup)> = Vec::new();
        let n = self.history.len();
        let mut k: usize = 0;
        while k < n
            invariant
                k <= n,
                n == self.history@.len(),
                self@ == groups_view(self.history@),
                r@.len() == k,
                forall|j: int|
                    0 <= j < k ==> (#[trigger] r@[j]).0 == n - 1 - j && r@[j].1@ == self@[n - 1
                        - j],
            decreases n - k,
        {
            let i = n - 1 - k;
            r.push((i, &self.history[i]));
            k += 1;
        }
        r
    }

    /// The `n`-th entry (0 is the most recent), if there is one.
    pub fn get_n_history(&self, n: usize) -> (r: Option<&CommandGroup>)
        ensures
            match history_entry(self@, n as int) {
                None => r is None,
                Some(g) => r matches Some(x) && x@ == g,
            },
            self@.len() <= HISTORY_NUMBER + 1,
    {
        proof {
            use_type_invariant(self);
        }
        if n < self.history.len() {
            Some(&self.history[n])
        } else {
            None
        }
    }
}

/// After a group is added, it is the most recent entry, every entry that was
/// at position `n < HISTORY_NUMBER` moves to position `n + 1`, and the history
/// never holds more than `HISTORY_NUMBER + 1` entries.
pub proof fn law_add_then_get(h: Seq<GroupV>, g: GroupV, n: int)
    requires
        h.len() <= HISTORY_NUMBER + 1,
        0 <= n < HISTORY_NUMBER,
    ensures
        history_entry(history_after_add(h, g), 0) == Some(g),
        history_entry(history_after_add(h, g), n + 1) == history_entry(h, n),
        history_after_add(h, g).len() <= HISTORY_NUMBER + 1,
        history_after_add(h, g).len() == if h.len() == HISTORY_NUMBER + 1 {
            h.len()
        } else {
            h.len() + 1
        },
{
}

/// The history after the groups `gs` were added, in that order, to an empty
/// history (what `History::new` followed by `add_history` for each gives).
pub open spec fn history_of(gs: Seq<GroupV>) -> Seq<GroupV>
    decreases gs.len(),
{
    if gs.len() == 0 {
        Seq::empty()
    } else {
        history_after_add(history_of(gs.drop_last()), gs.last())
    }
}

proof fn lemma_history_of(gs: Seq<GroupV>)
    ensures
        history_of(gs).len() == if gs.len() < HISTORY_NUMBER + 1 {
            gs.len()
        } else {
            (HISTORY_NUMBER + 1) as nat
        },
        forall|j: int|
            0 <= j < history_of(gs).len() ==> #[trigger] history_of(gs)[j] == gs[gs.len() - 1 - j],
    decreases gs.len(),
{
    if gs.len() > 0 {
        let init = gs.drop_last();
        lemma_history_of(init);
        let h = history_of(gs);
        assert forall|j: int| 0 <= j < h.len() implies #[trigger] h[j] == gs[gs.len() - 1 - j] by {
            if j > 0 {
                assert(h[j] == history_of(init)[j - 1]);
                assert(init[init.len() - 1 - (j - 1)] == gs[gs.len() - 1 - j]);
            }
        }
    }
}

/// After the groups `g_1, ..., g_k` (the sequence `gs`) were added in turn to
/// an empty history, entry `i` is `g_(k-i)`, the `i`-th most recent, as long
/// as `i < k` and `i < HISTORY_NUMBER + 1`; beyond that there is no entry. So
/// at most `HISTORY_NUMBER + 1` groups are kept, the newest at 0, and the
/// oldest are dropped first.
pub proof fn law_adds_from_empty(gs: Seq<GroupV>, i: int)
    ensures
        history_entry(history_of(gs), i) == if 0 <= i < gs.len() && i < HISTORY_NUMBER + 1 {
            Some(gs[gs.len() - 1 - i])
        } else {
            None::<GroupV>
        },
        history_of(gs).len() <= HISTORY_NUMBER + 1,
{
    lemma_history_of(gs);
    if 0 <= i < history_of(gs).len() {
        assert(history_of(gs)[i] == gs[gs.len() - 1 - i]);
    }
}

} // verus!
