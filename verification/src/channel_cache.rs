//! Open channels, kept across inventory ticks.
//!
//! A channel that must be given up is not dropped at once: it retires, and its
//! node is opened again only on a tick after the one that found the retired
//! channel with no other owner.

use crate::node_set::{absent_nodes, lemma_take_contains};
use std::collections::{HashMap, HashSet};
use vstd::prelude::*;

verus! {

/// Active and retiring channels, no node in both.
pub struct ChannelCache<Channel> {
    active: HashMap<u64, Channel>,
    retiring: HashMap<u64, Channel>,
}

impl<Channel> Default for ChannelCache<Channel> {
    fn default() -> (cache: Self)
        ensures
            cache.wf(),
            cache.active() == Map::<u64, Channel>::empty(),
            cache.retiring() == Map::<u64, Channel>::empty(),
    {
        ChannelCache { active: HashMap::new(), retiring: HashMap::new() }
    }
}

impl<Channel> ChannelCache<Channel> {
    /// The channels in use, by node.
    pub closed spec fn active(&self) -> Map<u64, Channel> {
        self.active@
    }

    /// The channels being given up, by node.
    pub closed spec fn retiring(&self) -> Map<u64, Channel> {
        self.retiring@
    }

    /// No node has an active and a retiring channel at once.
    pub open spec fn wf(&self) -> bool {
        self.active().dom().disjoint(self.retiring().dom())
    }

    /// The active channel of `node`.
    pub fn get(&self, node: &u64) -> (channel: Option<&Channel>)
        ensures
            match channel {
                Some(channel) => self.active().contains_key(*node) && *channel
                    == self.active()[*node],
                None => !self.active().contains_key(*node),
            },
    {
        self.active.get(node)
    }

    /// Hold a freshly opened channel.
    pub fn insert(&mut self, node: u64, channel: Channel)
        requires
            old(self).wf(),
            !old(self).retiring().contains_key(node),
        ensures
            final(self).wf(),
            final(self).active() == old(self).active().insert(node, channel),
            final(self).retiring() == old(self).retiring(),
    {
        self.active.insert(node, channel);
    }

    /// Move the active channel of `node` into retirement, if there is one.
    pub fn retire_node(&mut self, node: &u64) -> (retired: Option<()>)
        requires
            old(self).wf(),
        ensures
            final(self).wf(),
            retired is Some == old(self).active().contains_key(*node),
            final(self).active() == old(self).active().remove(*node),
            final(self).retiring() == if old(self).active().contains_key(*node) {
                old(self).retiring().insert(*node, old(self).active()[*node])
            } else {
                old(self).retiring()
            },
    {
        match self.active.remove(node) {
            Some(channel) => {
                self.retiring.insert(*node, channel);
                Some(())
            },
            None => {
                assert(self.active@ =~= old(self).active@);
                None
            },
        }
    }

    /// Whether `node` may be opened during the current tick. A retired channel
    /// with no other owner is dropped here, but opening stays deferred to a
    /// later tick.
    pub fn prepare_open<F: FnOnce(&Channel) -> bool>(&mut self, node: &u64, is_quiescent: F) -> (may_open: bool)
        requires
            old(self).wf(),
            old(self).retiring().contains_key(*node) ==> call_requires(
                is_quiescent,
                (&old(self).retiring()[*node],),
            ),
        ensures
            final(self).wf(),
            may_open == !old(self).retiring().contains_key(*node),
            final(self).active() == old(self).active(),
            may_open ==> final(self).retiring() == old(self).retiring(),
            !may_open ==> exists|quiet: bool|
                {
                    &&& #[trigger] call_ensures(
                        is_quiescent,
                        (&old(self).retiring()[*node],),
                        quiet,
                    )
                    &&& final(self).retiring() == if quiet {
                        old(self).retiring().remove(*node)
                    } else {
                        old(self).retiring()
                    }
                },
    {
        let quiet = match self.retiring.get(node) {
            Some(channel) => is_quiescent(channel),
            None => {
                return true;
            },
        };
        if quiet {
            self.retiring.remove(node);
        }
        false
    }

    /// The nodes with an active channel that are not in `seen`, each once.
    pub fn absent(&self, seen: &HashSet<u64>) -> (absent: Vec<u64>)
        ensures
            absent@.no_duplicates(),
            forall|node: u64| #[trigger]
                absent@.contains(node) <==> self.active().contains_key(node) && !seen@.contains(
                    node,
                ),
    {
        absent_nodes(&self.active, seen)
    }

    /// Retire the channel of every node that is not in `seen`. The hook is told
    /// of each retired channel once; the nodes are returned.
    pub fn retire_absent<F: FnMut(&Channel)>(&mut self, seen: &HashSet<u64>, mut on_retire: F) -> (retired: Vec<u64>)
        requires
            old(self).wf(),
            forall|channel: Channel| #[trigger] call_requires(on_retire, (&channel,)),
        ensures
            final(self).wf(),
            retired@.no_duplicates(),
            forall|node: u64| #[trigger]
                retired@.contains(node) <==> old(self).active().contains_key(node)
                    && !seen@.contains(node),
            final(self).active() == old(self).active().restrict(seen@),
            final(self).retiring() == old(self).retiring().union_prefer_right(
                old(self).active().remove_keys(seen@),
            ),
            forall|node: u64| #[trigger]
                retired@.contains(node) ==> call_ensures(
                    on_retire,
                    (&old(self).active()[node],),
                    (),
                ),
    {
        let ghost hook = on_retire;
        let absent = absent_nodes(&self.active, seen);
        for i in 0..absent.len()
            invariant
                hook == on_retire,
                forall|channel: Channel| #[trigger] call_requires(on_retire, (&channel,)),
                forall|k: int|
                    0 <= k < i ==> call_ensures(
                        hook,
                        (&old(self).active@[#[trigger] absent@[k]],),
                        (),
                    ),
                old(self).active@.dom().disjoint(old(self).retiring@.dom()),
                absent@.no_duplicates(),
                forall|node: u64| #[trigger]
                    absent@.contains(node) <==> old(self).active@.contains_key(node)
                        && !seen@.contains(node),
                forall|node: u64| #[trigger]
                    self.active@.contains_key(node) <==> old(self).active@.contains_key(node)
                        && !absent@.take(i as int).contains(node),
                forall|node: u64|
                    self.active@.contains_key(node) ==> #[trigger] self.active@[node]
                        == old(self).active@[node],
                forall|node: u64| #[trigger]
                    self.retiring@.contains_key(node) <==> old(self).retiring@.contains_key(node)
                        || absent@.take(i as int).contains(node),
                forall|node: u64| #[trigger]
                    self.retiring@.contains_key(node) ==> self.retiring@[node] == if absent@.take(
                        i as int,
                    ).contains(node) {
                        old(self).active@[node]
                    } else {
                        old(self).retiring@[node]
                    },
        {
            proof {
                lemma_take_contains(absent@, i as int);
                if absent@.take(i as int).contains(absent@[i as int]) {
                    let k = choose|k: int|
                        0 <= k < i && absent@.take(i as int)[k] == absent@[i as int];
                    assert(absent@[k] == absent@[i as int]);
                }
                assert(self.active@.contains_key(absent@[i as int]));
            }
            match self.active.remove(&absent[i]) {
                Some(channel) => {
                    on_retire(&channel);
                    self.retiring.insert(absent[i], channel);
                },
                None => {},
            }
        }
        assert(absent@.take(absent@.len() as int) =~= absent@);
        assert forall|node: u64| #[trigger] absent@.contains(node) implies call_ensures(
            hook,
            (&old(self).active@[node],),
            (),
        ) by {
            let k = choose|k: int| 0 <= k < absent@.len() && absent@[k] == node;
            assert(absent@[k] == node);
        }
        assert(self.active@ =~= old(self).active@.restrict(seen@));
        assert(self.retiring@ =~= old(self).retiring@.union_prefer_right(
            old(self).active@.remove_keys(seen@),
        ));
        absent
    }

    /// Drop the retired channel of every node that is neither in `seen` nor
    /// owned by anyone else.
    pub fn reap_absent<F: Fn(&Channel) -> bool>(&mut self, seen: &HashSet<u64>, is_quiescent: F)
        requires
            old(self).wf(),
            forall|channel: Channel| #[trigger] call_requires(is_quiescent, (&channel,)),
        ensures
            final(self).wf(),
            final(self).active() == old(self).active(),
            final(self).retiring().submap_of(old(self).retiring()),
            forall|node: u64| #[trigger]
                final(self).retiring().contains_key(node) ==> seen@.contains(node) || call_ensures(
                    is_quiescent,
                    (&old(self).retiring()[node],),
                    false,
                ),
            forall|node: u64| #[trigger]
                old(self).retiring().contains_key(node) && !final(self).retiring().contains_key(
                    node,
                ) ==> !seen@.contains(node) && call_ensures(
                    is_quiescent,
                    (&old(self).retiring()[node],),
                    true,
                ),
    {
        let absent = absent_nodes(&self.retiring, seen);
        for i in 0..absent.len()
            invariant
                forall|channel: Channel| #[trigger] call_requires(is_quiescent, (&channel,)),
                self.active@ == old(self).active@,
                forall|node: u64| #[trigger]
                    absent@.contains(node) <==> old(self).retiring@.contains_key(node)
                        && !seen@.contains(node),
                self.retiring@.submap_of(old(self).retiring@),
                forall|node: u64| #[trigger]
                    self.retiring@.contains_key(node) ==> !absent@.take(i as int).contains(node)
                        || call_ensures(is_quiescent, (&old(self).retiring@[node],), false),
                forall|node: u64| #[trigger]
                    old(self).retiring@.contains_key(node) && !self.retiring@.contains_key(node)
                        ==> absent@.contains(node) && call_ensures(
                        is_quiescent,
                        (&old(self).retiring@[node],),
                        true,
                    ),
        {
            proof {
                lemma_take_contains(absent@, i as int);
            }
            let node = absent[i];
            let quiet = match self.retiring.get(&node) {
                Some(channel) => is_quiescent(channel),
                None => false,
            };
            if quiet {
                self.retiring.remove(&node);
            }
        }
        assert(absent@.take(absent@.len() as int) =~= absent@);
    }

    /// Whether `node` has a retiring channel.
    pub fn is_retiring(&self, node: &u64) -> (retiring: bool)
        ensures
            retiring == self.retiring().contains_key(*node),
    {
        self.retiring.contains_key(node)
    }
}

} // verus!
