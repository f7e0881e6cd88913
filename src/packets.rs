use crate::{first_pos, lemma_first_pos, ClassID, ProfilID};
use vstd::prelude::*;

verus! {

/// A class as sent to clients: its members with their names.
#[derive(Clone, Debug)]
pub struct Class {
    pub name: String,
    pub profiles: Vec<(ProfilID, String)>,
}

/// Every class, as sent to clients.
#[derive(Clone, Debug)]
pub struct ClassList {
    pub classes: Vec<(ClassID, Class)>,
}

/// One proposition as seen by a given requester.
#[derive(Clone, Debug)]
pub struct NicknameStatut {
    pub proposition: String,
    pub count: usize,
    pub contain_you: bool,
    pub allowed_to_be_delete: bool,
}

/// The propositions of one profile as seen by a given requester.
#[derive(Clone, Debug)]
pub struct Profile {
    pub profil_id: ProfilID,
    pub nicknames: Vec<NicknameStatut>,
    pub allowed_to_vote: bool,
}

/// A proposition as seen by a requester, as plain values: text, number of votes,
/// whether the requester voted for it, whether the requester may delete it.
pub type StatutView = (Seq<char>, nat, bool, bool);

impl View for NicknameStatut {
    type V = StatutView;

    open spec fn view(&self) -> StatutView {
        (self.proposition@, self.count as nat, self.contain_you, self.allowed_to_be_delete)
    }
}

/// The views of a list of propositions.
pub open spec fn statut_views(s: Seq<NicknameStatut>) -> Seq<StatutView> {
    s.map_values(|e: NicknameStatut| e@)
}

/// For each entry, whether it has fewer than `c` votes.
pub open spec fn below(s: Seq<StatutView>, c: nat) -> Seq<bool> {
    s.map_values(|e: StatutView| e.1 < c)
}

/// Where `x` goes in a list sorted by decreasing count: before the first entry
/// with fewer votes, or at the end.
pub open spec fn insert_pos(s: Seq<StatutView>, x: StatutView) -> int {
    let p = first_pos(below(s, x.1), true);
    if p >= 0 {
        p
    } else {
        s.len() as int
    }
}

/// The list sorted by decreasing count; entries with equal counts keep their order.
pub open spec fn sort_by_votes_spec(s: Seq<StatutView>) -> Seq<StatutView>
    decreases s.len(),
{
    if s.len() == 0 {
        s
    } else {
        let r = sort_by_votes_spec(s.drop_last());
        r.insert(insert_pos(r, s.last()), s.last())
    }
}

/// Counts never increase along the list.
pub open spec fn by_decreasing_votes(s: Seq<StatutView>) -> bool {
    forall|i: int, j: int| 0 <= i < j < s.len() ==> s[i].1 >= s[j].1
}

/// Sorting by votes gives a list sorted by decreasing count that holds the same
/// entries, each as many times.
pub proof fn lemma_sort_by_votes(s: Seq<StatutView>)
    ensures
        by_decreasing_votes(sort_by_votes_spec(s)),
        sort_by_votes_spec(s).to_multiset() == s.to_multiset(),
    decreases s.len(),
{
    broadcast use vstd::seq_lib::group_to_multiset_ensures;
    if s.len() > 0 {
        let init = s.drop_last();
        let x = s.last();
        lemma_sort_by_votes(init);
        let r = sort_by_votes_spec(init);
        let keys = below(r, x.1);
        lemma_first_pos(keys, true);
        let p = insert_pos(r, x);
        let out = r.insert(p, x);
        assert forall|i: int, j: int| 0 <= i < j < out.len() implies out[i].1 >= out[j].1 by {
            if j < p {
                assert(out[i] == r[i] && out[j] == r[j]);
            } else if j == p {
                assert(out[i] == r[i]);
                assert(keys[i] == (r[i].1 < x.1));
            } else if i == p {
                assert(out[j] == r[j - 1]);
                assert(keys[p] == (r[p].1 < x.1));
                if p < j - 1 {
                    assert(r[p].1 >= r[j - 1].1);
                }
            } else if i < p {
                assert(out[i] == r[i] && out[j] == r[j - 1]);
            } else {
                assert(out[i] == r[i - 1] && out[j] == r[j - 1]);
            }
        }
        assert(r.insert(p, x) =~= r.take(p) + seq![x] + r.skip(p));
        assert(r =~= r.take(p) + r.skip(p));
        vstd::seq_lib::lemma_multiset_commutative(r.take(p), r.skip(p));
        vstd::seq_lib::lemma_multiset_commutative(r.take(p) + seq![x], r.skip(p));
        vstd::seq_lib::lemma_multiset_commutative(r.take(p), seq![x]);
        assert(s =~= init.push(x));
    }
}

/// Sorts the list by decreasing number of votes; entries with equal counts keep
/// their order.
pub fn sort_by_votes(v: &mut Vec<NicknameStatut>)
    ensures
        statut_views(final(v)@) == sort_by_votes_spec(statut_views(old(v)@)),
{
    let ghost sv = statut_views(v@);
    let mut out: Vec<NicknameStatut> = Vec::new();
    while v.len() > 0
        invariant
            v@.len() <= sv.len(),
            statut_views(v@) == sv.skip(sv.len() - v@.len()),
            statut_views(out@) == sort_by_votes_spec(sv.take(sv.len() - v@.len())),
        decreases v.len(),
    {
        let ghost done = sv.len() - v@.len();
        let ghost vv = statut_views(v@);
        let x = v.remove(0);
        proof {
            assert(vv[0] == sv[done]);
            assert(statut_views(v@) =~= vv.skip(1));
            assert(vv.skip(1) =~= sv.skip(done + 1));
        }
        let ghost r = statut_views(out@);
        let ghost keys = below(r, x@.1);
        let mut j: usize = 0;
        while j < out.len() && out[j].count >= x.count
            invariant
                j <= out@.len(),
                r == statut_views(out@),
                keys == below(r, x@.1),
                first_pos(keys.take(j as int), true) == -1,
            decreases out.len() - j,
        {
            proof {
                crate::lemma_first_pos_step(keys, j as int, true);
            }
            j += 1;
        }
        proof {
            if j == out.len() {
                crate::lemma_first_pos_done(keys, true);
            } else {
                crate::lemma_first_pos_step(keys, j as int, true);
            }
            assert(sv.take(done + 1).drop_last() =~= sv.take(done));
            assert(sv.take(done + 1).last() == x@);
            assert(insert_pos(r, x@) == j);
        }
        out.insert(j, x);
        proof {
            assert(statut_views(out@) =~= r.insert(j as int, x@));
        }
    }
    assert(sv.take(sv.len() as int) =~= sv);
    *v = out;
}

} // verus!
