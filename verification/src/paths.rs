//! Path discovery and migration: choosing a peer address among the
//! candidate paths supplied during introduction.
//!
//! A channel starts out `Discovering`, counting inbound datagrams per
//! sender address. Once any single address has delivered
//! [`SETTLE_COUNT`] datagrams the channel settles on a counted address of
//! the lowest cost tier and becomes `Established`; prior candidates are
//! retained for migration decisions. While discovering, outbound traffic
//! is broadcast to every candidate; once established, it goes only to the
//! chosen address.

use vstd::prelude::*;
use crate::proto::{Category, NetAddr};

verus! {

/// Inbound datagrams to collect from one address before the channel
/// settles on a peer address.
pub const SETTLE_COUNT: u64 = 5;

/// One candidate peer address: its cost tier and how many datagrams have
/// arrived from it.
#[derive(Clone, Copy, Debug, PartialEq, Eq, Structural)]
pub struct Candidate {
    pub addr: NetAddr,
    pub category: Category,
    pub count: u64,
}

/// Where a channel currently sends: still collecting evidence of
/// reachability, or settled on one primary address.
#[derive(Clone, Debug)]
pub enum AddressMode {
    Discovering(Vec<Candidate>),
    Established(NetAddr, Vec<Candidate>),
}

/// The candidate holding `a`, if one does.
pub open spec fn spec_find(s: Seq<Candidate>, a: NetAddr) -> Option<Candidate>
    decreases s.len(),
{
    if s.len() == 0 {
        None
    } else if s[0].addr == a {
        Some(s[0])
    } else {
        spec_find(s.drop_first(), a)
    }
}

/// The tier recorded for `a`, defaulting to `Internet` for an unknown
/// address, as the migration rule does.
pub open spec fn cat_or_default(s: Seq<Candidate>, a: NetAddr) -> Category {
    match spec_find(s, a) {
        Some(c) => c.category,
        None => Category::Internet,
    }
}

/// No two candidates hold the same address.
pub open spec fn addrs_unique(s: Seq<Candidate>) -> bool {
    forall|i: int, j: int| 0 <= i < j < s.len() ==> (#[trigger] s[i]).addr != (#[trigger] s[j]).addr
}

/// Counts in a still-discovering list stay below the threshold: the
/// channel settles the moment one reaches it.
pub open spec fn counts_below(s: Seq<Candidate>) -> bool {
    forall|i: int| 0 <= i < s.len() ==> (#[trigger] s[i]).count < SETTLE_COUNT
}

/// Counts retained after settling never passed the threshold.
pub open spec fn counts_bounded(s: Seq<Candidate>) -> bool {
    forall|i: int| 0 <= i < s.len() ==> (#[trigger] s[i]).count <= SETTLE_COUNT
}

/// The candidate list after one datagram from `a`: its count bumped,
/// or a fresh `Internet` entry with count 1 if it was unknown.
pub open spec fn spec_bump(s: Seq<Candidate>, a: NetAddr) -> Seq<Candidate>
    decreases s.len(),
{
    if s.len() == 0 {
        seq![Candidate { addr: a, category: Category::Internet, count: 1 }]
    } else if s[0].addr == a {
        seq![
            Candidate { addr: a, category: s[0].category, count: (s[0].count + 1) as u64 },
        ] + s.drop_first()
    } else {
        seq![s[0]] + spec_bump(s.drop_first(), a)
    }
}

/// The count a datagram from `a` brings the list to.
pub open spec fn spec_new_count(s: Seq<Candidate>, a: NetAddr) -> u64 {
    match spec_find(s, a) {
        Some(c) => (c.count + 1) as u64,
        None => 1u64,
    }
}

/// `chosen` is an acceptable settle choice in `s`: it has been heard
/// from, and no counted candidate has a cheaper tier.
pub open spec fn settle_choice_ok(s: Seq<Candidate>, chosen: NetAddr) -> bool {
    exists|i: int|
        0 <= i < s.len() && (#[trigger] s[i]).addr == chosen && s[i].count >= 1 && (forall|j: int|
            0 <= j < s.len() && (#[trigger] s[j]).count >= 1 ==> s[i].category.spec_value()
                <= s[j].category.spec_value())
}

/// How one inbound datagram transforms an address mode: no change once
/// established; while discovering, the sender's count is bumped and the
/// mode settles on some acceptable choice when the count reaches
/// [`SETTLE_COUNT`].
pub open spec fn datagram_step_ok(pre: AddressMode, post: AddressMode, from: NetAddr) -> bool {
    match pre {
        AddressMode::Established(..) => post == pre,
        AddressMode::Discovering(s) => if spec_new_count(s@, from) >= SETTLE_COUNT {
            match post {
                AddressMode::Established(chosen, s2) => s2@ == spec_bump(s@, from)
                    && settle_choice_ok(s2@, chosen),
                _ => false,
            }
        } else {
            match post {
                AddressMode::Discovering(s2) => s2@ == spec_bump(s@, from),
                _ => false,
            }
        },
    }
}

/// The address mode after the migration rule is applied for an accepted
/// datagram from `from`: an established address moves to the sender when
/// the sender's recorded tier is no worse than the current one.
pub open spec fn spec_migrate(pre: AddressMode, from: NetAddr) -> AddressMode {
    match pre {
        AddressMode::Discovering(..) => pre,
        AddressMode::Established(chosen, prior) => {
            if from != chosen && cat_or_default(prior@, chosen).spec_value() >= cat_or_default(
                prior@,
                from,
            ).spec_value() {
                AddressMode::Established(from, prior)
            } else {
                pre
            }
        },
    }
}

/// The candidate list with the tier of `a` set to `cat` and its count
/// cleared: the entry replaced where present, appended where not.
pub open spec fn spec_upsert(s: Seq<Candidate>, a: NetAddr, cat: Category) -> Seq<Candidate>
    decreases s.len(),
{
    if s.len() == 0 {
        seq![Candidate { addr: a, category: cat, count: 0 }]
    } else if s[0].addr == a {
        seq![Candidate { addr: a, category: cat, count: 0 }] + s.drop_first()
    } else {
        seq![s[0]] + spec_upsert(s.drop_first(), a, cat)
    }
}

impl AddressMode {
    pub open spec fn wf(self) -> bool {
        match self {
            AddressMode::Discovering(s) => addrs_unique(s@) && counts_below(s@),
            AddressMode::Established(_, s) => addrs_unique(s@) && counts_bounded(s@),
        }
    }

    /// The addresses outbound traffic goes to: every candidate while
    /// discovering, only the chosen address once established.
    pub fn send_targets(&self) -> (r: Vec<NetAddr>)
        ensures
            match self {
                AddressMode::Discovering(s) => r@.len() == s@.len() && (forall|i: int|
                    0 <= i < s@.len() ==> r@[i] == (#[trigger] s@[i]).addr),
                AddressMode::Established(chosen, _) => r@ =~= seq![*chosen],
            },
    {
        match self {
            AddressMode::Discovering(s) => {
                let mut out: Vec<NetAddr> = Vec::new();
                let mut i: usize = 0;
                while i < s.len()
                    invariant
                        i <= s@.len(),
                        out@.len() == i,
                        forall|k: int| 0 <= k < i ==> out@[k] == (#[trigger] s@[k]).addr,
                    decreases s@.len() - i,
                {
                    out.push(s[i].addr);
                    i = i + 1;
                }
                out
            },
            AddressMode::Established(chosen, _) => {
                let mut out: Vec<NetAddr> = Vec::new();
                out.push(*chosen);
                out
            },
        }
    }
}

/// Linear search for `a`.
fn find_candidate(s: &Vec<Candidate>, a: NetAddr) -> (r: Option<usize>)
    ensures
        match r {
            Some(i) => i < s@.len() && s@[i as int].addr == a && spec_find(s@, a) == Some(
                s@[i as int],
            ),
            None => spec_find(s@, a) is None && (forall|k: int|
                0 <= k < s@.len() ==> (#[trigger] s@[k]).addr != a),
        },
{
    let mut i: usize = 0;
    proof {
        assert(s@.skip(0) =~= s@);
    }
    while i < s.len()
        invariant
            i <= s@.len(),
            spec_find(s@, a) == spec_find(s@.skip(i as int), a),
            forall|k: int| 0 <= k < i ==> (#[trigger] s@[k]).addr != a,
        decreases s@.len() - i,
    {
        if s[i].addr == a {
            proof {
                let t = s@.skip(i as int);
                assert(t[0] == s@[i as int]);
            }
            return Some(i);
        }
        proof {
            let t = s@.skip(i as int);
            assert(t[0] == s@[i as int]);
            assert(t.drop_first() =~= s@.skip(i + 1));
        }
        i = i + 1;
    }
    proof {
        assert(s@.skip(s@.len() as int) =~= Seq::<Candidate>::empty());
    }
    None
}

/// Updating the entry found at `idx` is what `spec_bump` does when the
/// address is present.
proof fn lemma_bump_update(s: Seq<Candidate>, a: NetAddr, idx: int)
    requires
        addrs_unique(s),
        0 <= idx < s.len(),
        s[idx].addr == a,
    ensures
        spec_bump(s, a) == s.update(
            idx,
            Candidate { addr: a, category: s[idx].category, count: (s[idx].count + 1) as u64 },
        ),
    decreases s.len(),
{
    if idx == 0 {
        assert(spec_bump(s, a) =~= s.update(
            0,
            Candidate { addr: a, category: s[0].category, count: (s[0].count + 1) as u64 },
        ));
    } else {
        assert(s.drop_first()[idx - 1] == s[idx]);
        assert(addrs_unique(s.drop_first())) by {
            assert(forall|i: int, j: int|
                0 <= i < j < s.drop_first().len() ==> s.drop_first()[i] == s[i + 1]
                    && s.drop_first()[j] == s[j + 1]);
        }
        lemma_bump_update(s.drop_first(), a, idx - 1);
        assert(s[0].addr != a);
        assert(spec_bump(s, a) =~= s.update(
            idx,
            Candidate { addr: a, category: s[idx].category, count: (s[idx].count + 1) as u64 },
        ));
    }
}

/// Pushing a fresh entry is what `spec_bump` does when the address is
/// absent.
proof fn lemma_bump_push(s: Seq<Candidate>, a: NetAddr)
    requires
        spec_find(s, a) is None,
    ensures
        spec_bump(s, a) == s.push(Candidate { addr: a, category: Category::Internet, count: 1 }),
    decreases s.len(),
{
    if s.len() == 0 {
        assert(spec_bump(s, a) =~= s.push(
            Candidate { addr: a, category: Category::Internet, count: 1 },
        ));
    } else {
        lemma_bump_push(s.drop_first(), a);
        assert(spec_bump(s, a) =~= s.push(
            Candidate { addr: a, category: Category::Internet, count: 1 },
        ));
    }
}

impl AddressMode {
    /// Note one inbound datagram from `from`, before it is fed to the
    /// channel engine.
    ///
    /// While discovering, the sender's count is bumped (a fresh address
    /// enters as `Internet`); when that count reaches [`SETTLE_COUNT`]
    /// the channel settles on a counted candidate of the lowest tier and
    /// becomes `Established` with the candidates retained. An
    /// established channel is not changed here; see `migrate`.
    #[verifier::rlimit(100)]
    #[verifier::spinoff_prover]
    pub fn on_datagram(&mut self, from: NetAddr)
        requires
            old(self).wf(),
        ensures
            final(self).wf(),
            datagram_step_ok(*old(self), *final(self), from),
    {
        match self {
            AddressMode::Established(..) => {},
            AddressMode::Discovering(cands) => {
                let ghost s0 = cands@;
                let newcount: u64;
                let bumped_idx: usize;
                match find_candidate(cands, from) {
                    Some(idx) => {
                        let c = cands[idx];
                        newcount = c.count + 1;
                        proof {
                            lemma_bump_update(s0, from, idx as int);
                        }
                        cands.set(
                            idx,
                            Candidate { addr: from, category: c.category, count: newcount },
                        );
                        bumped_idx = idx;
                    },
                    None => {
                        cands.push(
                            Candidate { addr: from, category: Category::Internet, count: 1 },
                        );
                        newcount = 1;
                        bumped_idx = cands.len() - 1;
                        proof {
                            lemma_bump_push(s0, from);
                        }
                    },
                }
                let ghost s1 = cands@;
                proof {
                    assert(forall|p: int|
                        0 <= p < s0.len() ==> (#[trigger] s1[p]).addr == s0[p].addr);
                    assert(addrs_unique(s1));
                    assert(counts_bounded(s1));
                    if newcount < SETTLE_COUNT {
                        assert(counts_below(s1));
                    }
                }
                if newcount >= SETTLE_COUNT {
                    // settle: pick a counted candidate of the lowest tier
                    let mut best: usize = bumped_idx;
                    let mut k: usize = 0;
                    while k < cands.len()
                        invariant
                            cands@ == s1,
                            k <= s1.len(),
                            best < s1.len(),
                            s1[best as int].count >= 1,
                            forall|j: int|
                                0 <= j < k && (#[trigger] s1[j]).count >= 1 ==> s1[
                                    best as int
                                ].category.spec_value() <= s1[j].category.spec_value(),
                        decreases s1.len() - k,
                    {
                        if cands[k].count >= 1 && cands[k].category.value()
                            < cands[best].category.value() {
                            best = k;
                        }
                        k = k + 1;
                    }
                    let chosen = cands[best].addr;
                    proof {
                        assert(settle_choice_ok(s1, chosen));
                    }
                    let mut prior: Vec<Candidate> = Vec::new();
                    core::mem::swap(cands, &mut prior);
                    *self = AddressMode::Established(chosen, prior);
                }
            },
        }
    }

    /// Apply the migration rule after a datagram from `from` was
    /// accepted by the channel engine.
    ///
    /// If the channel is established elsewhere and the sender's recorded
    /// tier (default `Internet`) is no worse than the current address's,
    /// the established address moves to the sender. Reordering of the
    /// reliable channel is not re-established by a move.
    #[verifier::spinoff_prover]
    pub fn migrate(&mut self, from: NetAddr)
        requires
            old(self).wf(),
        ensures
            final(self).wf(),
            *final(self) == spec_migrate(*old(self), from),
    {
        match self {
            AddressMode::Discovering(..) => {},
            AddressMode::Established(chosen, prior) => {
                if from != *chosen {
                    let current_cat = match find_candidate(prior, *chosen) {
                        Some(i) => prior[i].category,
                        None => Category::Internet,
                    };
                    let migrate_cat = match find_candidate(prior, from) {
                        Some(i) => prior[i].category,
                        None => Category::Internet,
                    };
                    if current_cat.value() >= migrate_cat.value() {
                        *chosen = from;
                    }
                }
            },
        }
    }
}

/// Replacing the entry found at `idx` is what `spec_upsert` does when
/// the address is present.
proof fn lemma_upsert_update(s: Seq<Candidate>, a: NetAddr, cat: Category, idx: int)
    requires
        addrs_unique(s),
        0 <= idx < s.len(),
        s[idx].addr == a,
    ensures
        spec_upsert(s, a, cat) == s.update(idx, Candidate { addr: a, category: cat, count: 0 }),
    decreases s.len(),
{
    if idx == 0 {
        assert(spec_upsert(s, a, cat) =~= s.update(
            0,
            Candidate { addr: a, category: cat, count: 0 },
        ));
    } else {
        assert(s.drop_first()[idx - 1] == s[idx]);
        assert(addrs_unique(s.drop_first())) by {
            assert(forall|i: int, j: int|
                0 <= i < j < s.drop_first().len() ==> s.drop_first()[i] == s[i + 1]
                    && s.drop_first()[j] == s[j + 1]);
        }
        lemma_upsert_update(s.drop_first(), a, cat, idx - 1);
        assert(s[0].addr != a);
        assert(spec_upsert(s, a, cat) =~= s.update(
            idx,
            Candidate { addr: a, category: cat, count: 0 },
        ));
    }
}

/// Appending a fresh entry is what `spec_upsert` does when the address
/// is absent.
proof fn lemma_upsert_push(s: Seq<Candidate>, a: NetAddr, cat: Category)
    requires
        spec_find(s, a) is None,
    ensures
        spec_upsert(s, a, cat) == s.push(Candidate { addr: a, category: cat, count: 0 }),
    decreases s.len(),
{
    if s.len() == 0 {
        assert(spec_upsert(s, a, cat) =~= s.push(
            Candidate { addr: a, category: cat, count: 0 },
        ));
    } else {
        lemma_upsert_push(s.drop_first(), a, cat);
        assert(spec_upsert(s, a, cat) =~= s.push(Candidate { addr: a, category: cat, count: 0 }));
    }
}

/// Record the tier of `a`, replacing any earlier record of the same
/// address, as seeding a channel's candidates does.
pub fn upsert(cands: &mut Vec<Candidate>, a: NetAddr, cat: Category)
    requires
        addrs_unique(old(cands)@),
    ensures
        final(cands)@ == spec_upsert(old(cands)@, a, cat),
        addrs_unique(final(cands)@),
        counts_below(old(cands)@) ==> counts_below(final(cands)@),
{
    let ghost s0 = cands@;
    match find_candidate(cands, a) {
        Some(idx) => {
            proof {
                lemma_upsert_update(s0, a, cat, idx as int);
            }
            cands.set(idx, Candidate { addr: a, category: cat, count: 0 });
        },
        None => {
            proof {
                lemma_upsert_push(s0, a, cat);
            }
            cands.push(Candidate { addr: a, category: cat, count: 0 });
        },
    }
    proof {
        let s1 = cands@;
        assert(forall|p: int| 0 <= p < s0.len() ==> (#[trigger] s1[p]).addr == s0[p].addr);
        assert(addrs_unique(s1));
    }
}

} // verus!
