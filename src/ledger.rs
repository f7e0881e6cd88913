use crate::{first_pos, lemma_first_pos_done, lemma_first_pos_step, opt_pos, ProfilID};
use vstd::prelude::*;

verus! {

/// One candidate nickname for a target profile, with the profiles that voted for it.
#[derive(Clone, Debug)]
pub struct NickNameProposition {
    pub author: ProfilID,
    pub proposition: String,
    pub votes: Vec<ProfilID>,
    pub protected: bool,
}

/// A proposition as plain values.
pub struct PropositionView {
    pub author: ProfilID,
    pub text: Seq<char>,
    pub votes: Seq<ProfilID>,
    pub protected: bool,
}

impl View for NickNameProposition {
    type V = PropositionView;

    open spec fn view(&self) -> PropositionView {
        PropositionView {
            author: self.author,
            text: self.proposition@,
            votes: self.votes@,
            protected: self.protected,
        }
    }
}

/// The propositions of one target as plain values.
pub open spec fn list_view(l: Seq<NickNameProposition>) -> Seq<PropositionView> {
    l.map_values(|p: NickNameProposition| p@)
}

/// The texts of a list of propositions, in order.
pub open spec fn texts(l: Seq<PropositionView>) -> Seq<Seq<char>> {
    l.map_values(|p: PropositionView| p.text)
}

/// No text occurs twice in the list.
pub open spec fn unique_texts(l: Seq<PropositionView>) -> bool {
    forall|i: int, j: int| 0 <= i < l.len() && 0 <= j < l.len() && l[i].text == l[j].text ==> i == j
}

/// `s` with every occurrence of `v` taken out, the rest in order.
pub open spec fn without(s: Seq<ProfilID>, v: ProfilID) -> Seq<ProfilID>
    decreases s.len(),
{
    if s.len() == 0 {
        s
    } else {
        let r = without(s.drop_last(), v);
        if s.last() == v {
            r
        } else {
            r.push(s.last())
        }
    }
}

/// A proposition after `voter` voted for `text`: the voter leaves it, and joins it
/// at the end of its votes when it is the one named `text`.
pub open spec fn revote(p: PropositionView, voter: ProfilID, text: Seq<char>) -> PropositionView {
    PropositionView {
        votes: if p.text == text {
            without(p.votes, voter).push(voter)
        } else {
            without(p.votes, voter)
        },
        ..p
    }
}

/// A proposition freshly made by `voter`.
pub open spec fn fresh_proposition(voter: ProfilID, text: Seq<char>) -> PropositionView {
    PropositionView { author: voter, text, votes: seq![voter], protected: false }
}

/// The list of one target after `voter` voted for the (already trimmed) `text`.
pub open spec fn vote_spec(l: Seq<PropositionView>, voter: ProfilID, text: Seq<char>) -> Seq<
    PropositionView,
> {
    let m = l.map_values(|p: PropositionView| revote(p, voter, text));
    if texts(l).contains(text) {
        m
    } else {
        m.push(fresh_proposition(voter, text))
    }
}

/// Taking `v` out leaves no `v`, keeps every other id, and shortens the sequence
/// exactly when `v` was in it.
pub proof fn lemma_without(s: Seq<ProfilID>, v: ProfilID)
    ensures
        !without(s, v).contains(v),
        without(s, v).len() <= s.len(),
        s.contains(v) ==> without(s, v).len() < s.len(),
        !s.contains(v) ==> without(s, v) == s,
        forall|x: ProfilID| x != v ==> (without(s, v).contains(x) <==> s.contains(x)),
    decreases s.len(),
{
    if s.len() > 0 {
        let init = s.drop_last();
        lemma_without(init, v);
        assert forall|x: ProfilID| s.contains(x) <==> (init.contains(x) || s.last() == x) by {
            if s.contains(x) {
                let j = choose|j: int| 0 <= j < s.len() && s[j] == x;
                if j < s.len() - 1 {
                    assert(init[j] == x);
                }
            }
            if init.contains(x) {
                let j = choose|j: int| 0 <= j < init.len() && init[j] == x;
                assert(s[j] == x);
            }
            if s.last() == x {
                assert(s[s.len() - 1] == x);
            }
        }
        let r = without(init, v);
        if s.last() != v {
            assert forall|x: ProfilID| r.push(s.last()).contains(x) <==> (r.contains(x) || x
                == s.last()) by {
                if r.push(s.last()).contains(x) {
                    let j = choose|j: int| 0 <= j < r.len() + 1 && r.push(s.last())[j] == x;
                    if j < r.len() {
                        assert(r[j] == x);
                    }
                }
                if r.contains(x) {
                    let j = choose|j: int| 0 <= j < r.len() && r[j] == x;
                    assert(r.push(s.last())[j] == x);
                }
                if x == s.last() {
                    assert(r.push(s.last())[r.len() as int] == x);
                }
            }
            if !s.contains(v) {
                assert(s =~= init.push(s.last()));
            }
        }
    }
}

/// The invariant of one target's propositions: their texts are distinct, each
/// voter stands in the votes of at most one of them, and at most once there.
pub open spec fn ledger_list_ok(l: Seq<PropositionView>) -> bool {
    &&& unique_texts(l)
    &&& forall|i: int, j: int, v: ProfilID|
        0 <= i < l.len() && 0 <= j < l.len() && (#[trigger] l[i].votes.contains(v)) && (
        #[trigger] l[j].votes.contains(v)) ==> i == j
    &&& forall|i: int| 0 <= i < l.len() ==> (#[trigger] l[i]).votes.no_duplicates()
}

/// A vote keeps the invariant of the target's propositions.
pub proof fn lemma_vote_keeps_ledger(l: Seq<PropositionView>, voter: ProfilID, text: Seq<char>)
    requires
        ledger_list_ok(l),
    ensures
        ledger_list_ok(vote_spec(l, voter, text)),
{
    let r = vote_spec(l, voter, text);
    lemma_vote_keeps_unique(l, voter, text);
    assert forall|k: int| 0 <= k < l.len() implies #[trigger] r[k] == revote(l[k], voter, text) by {}
    assert forall|i: int, j: int, v: ProfilID|
        0 <= i < r.len() && 0 <= j < r.len() && (#[trigger] r[i].votes.contains(v)) && (
        #[trigger] r[j].votes.contains(v)) implies i == j by {
        if v == voter {
            lemma_vote_single_ballot(l, voter, text, i, j);
        } else {
            assert forall|k: int| 0 <= k < r.len() && r[k].votes.contains(v) implies k < l.len()
                && l[k].votes.contains(v) by {
                if k < l.len() {
                    lemma_without(l[k].votes, voter);
                    let w = without(l[k].votes, voter);
                    if l[k].text == text {
                        assert(r[k].votes == w.push(voter));
                        let z = choose|z: int| 0 <= z < w.len() + 1 && w.push(voter)[z] == v;
                        assert(w[z] == v);
                    }
                } else {
                    assert(r[k].votes == seq![voter]);
                }
            }
        }
    }
    assert forall|k: int| 0 <= k < r.len() implies (#[trigger] r[k]).votes.no_duplicates() by {
        if k < l.len() {
            lemma_without_no_dup(l[k].votes, voter);
            lemma_without(l[k].votes, voter);
            if l[k].text == text {
                crate::lemma_no_dup_push(without(l[k].votes, voter), voter);
            }
        } else {
            assert(r[k].votes == seq![voter]);
        }
    }
}

/// Removing a proposition by moving the last one into its place keeps the invariant.
pub proof fn lemma_swap_remove_keeps_ledger(l: Seq<PropositionView>, i: int)
    requires
        ledger_list_ok(l),
        0 <= i < l.len(),
    ensures
        ledger_list_ok(l.update(i, l.last()).drop_last()),
{
    let r = l.update(i, l.last()).drop_last();
    let n = l.len() - 1;
    assert forall|a: int| 0 <= a < r.len() implies #[trigger] r[a] == l[if a == i { n } else { a }] by {}
    assert forall|a: int, b: int|
        0 <= a < r.len() && 0 <= b < r.len() && r[a].text == r[b].text implies a == b by {
        assert(r[a] == l[if a == i { n } else { a }]);
        assert(r[b] == l[if b == i { n } else { b }]);
    }
    assert forall|a: int, b: int, v: ProfilID|
        0 <= a < r.len() && 0 <= b < r.len() && (#[trigger] r[a].votes.contains(v)) && (
        #[trigger] r[b].votes.contains(v)) implies a == b by {
        let fa = if a == i { n } else { a };
        let fb = if b == i { n } else { b };
        assert(r[a] == l[fa] && r[b] == l[fb]);
        assert(l[fa].votes.contains(v) && l[fb].votes.contains(v));
    }
    assert forall|a: int| 0 <= a < r.len() implies (#[trigger] r[a]).votes.no_duplicates() by {
        assert(r[a] == l[if a == i { n } else { a }]);
    }
}

/// Changing the protection of a proposition keeps the invariant.
pub proof fn lemma_protect_keeps_ledger(l: Seq<PropositionView>, i: int, state: bool)
    requires
        ledger_list_ok(l),
        0 <= i < l.len(),
    ensures
        ledger_list_ok(l.update(i, PropositionView { protected: state, ..l[i] })),
{
    let r = l.update(i, PropositionView { protected: state, ..l[i] });
    assert forall|a: int| 0 <= a < r.len() implies (#[trigger] r[a]).text == l[a].text && r[a].votes
        == l[a].votes by {}
    assert forall|a: int, b: int, v: ProfilID|
        0 <= a < r.len() && 0 <= b < r.len() && (#[trigger] r[a].votes.contains(v)) && (
        #[trigger] r[b].votes.contains(v)) implies a == b by {
        assert(r[a].votes == l[a].votes && r[b].votes == l[b].votes);
        assert(l[a].votes.contains(v) && l[b].votes.contains(v));
    }
}

/// Withdrawing every vote of one voter keeps the invariant.
pub proof fn lemma_strip_keeps_ledger(l: Seq<PropositionView>, v: ProfilID)
    requires
        ledger_list_ok(l),
    ensures
        ledger_list_ok(strip_voter(l, v)),
{
    let r = strip_voter(l, v);
    assert forall|a: int| 0 <= a < r.len() implies (#[trigger] r[a]).text == l[a].text && r[a].votes
        == without(l[a].votes, v) by {}
    assert forall|a: int, b: int, u: ProfilID|
        0 <= a < r.len() && 0 <= b < r.len() && (#[trigger] r[a].votes.contains(u)) && (
        #[trigger] r[b].votes.contains(u)) implies a == b by {
        lemma_without(l[a].votes, v);
        lemma_without(l[b].votes, v);
        assert(r[a].votes == without(l[a].votes, v) && r[b].votes == without(l[b].votes, v));
        assert(l[a].votes.contains(u) && l[b].votes.contains(u));
    }
    assert forall|a: int| 0 <= a < r.len() implies (#[trigger] r[a]).votes.no_duplicates() by {
        lemma_without_no_dup(l[a].votes, v);
    }
}

/// Taking `v` out of a sequence without duplicates leaves none.
pub proof fn lemma_without_no_dup(s: Seq<ProfilID>, v: ProfilID)
    requires
        s.no_duplicates(),
    ensures
        without(s, v).no_duplicates(),
    decreases s.len(),
{
    if s.len() > 0 {
        let init = s.drop_last();
        assert forall|a: int, b: int| 0 <= a < init.len() && 0 <= b < init.len() && a != b implies init[a] != init[b] by {
            assert(init[a] == s[a] && init[b] == s[b]);
        }
        lemma_without_no_dup(init, v);
        lemma_without(init, v);
        if s.last() != v {
            assert(!init.contains(s.last())) by {
                if init.contains(s.last()) {
                    let w = choose|w: int| 0 <= w < init.len() && init[w] == s.last();
                    assert(s[w] == s[s.len() - 1]);
                }
            }
            crate::lemma_no_dup_push(without(init, v), s.last());
        }
    }
}

/// After a vote the voter stands in the votes of at most one proposition of the
/// target, provided the texts of the list were distinct.
pub proof fn lemma_vote_single_ballot(
    l: Seq<PropositionView>,
    voter: ProfilID,
    text: Seq<char>,
    i: int,
    j: int,
)
    requires
        unique_texts(l),
        0 <= i < vote_spec(l, voter, text).len(),
        0 <= j < vote_spec(l, voter, text).len(),
        vote_spec(l, voter, text)[i].votes.contains(voter),
        vote_spec(l, voter, text)[j].votes.contains(voter),
    ensures
        i == j,
{
    let r = vote_spec(l, voter, text);
    assert forall|k: int| 0 <= k < l.len() && r[k].votes.contains(voter) implies l[k].text
        == text by {
        lemma_without(l[k].votes, voter);
    }
    if !texts(l).contains(text) {
        if i < l.len() {
            assert(texts(l)[i] == text);
        }
        if j < l.len() {
            assert(texts(l)[j] == text);
        }
    }
}

/// After a vote the texts of the list are still distinct.
pub proof fn lemma_vote_keeps_unique(l: Seq<PropositionView>, voter: ProfilID, text: Seq<char>)
    requires
        unique_texts(l),
    ensures
        unique_texts(vote_spec(l, voter, text)),
{
    let r = vote_spec(l, voter, text);
    assert forall|i: int, j: int|
        0 <= i < r.len() && 0 <= j < r.len() && r[i].text == r[j].text implies i == j by {
        if !texts(l).contains(text) {
            if i < l.len() && j == l.len() {
                assert(texts(l)[i] == text);
            }
            if j < l.len() && i == l.len() {
                assert(texts(l)[j] == text);
            }
        }
    }
}

/// Voting for a text that the list already holds adds no proposition, and adds at
/// most one vote to that proposition; none when the voter was already among its votes.
pub proof fn lemma_vote_existing_text(
    l: Seq<PropositionView>,
    voter: ProfilID,
    text: Seq<char>,
    i: int,
)
    requires
        0 <= i < l.len(),
        l[i].text == text,
    ensures
        vote_spec(l, voter, text).len() == l.len(),
        vote_spec(l, voter, text)[i].text == text,
        vote_spec(l, voter, text)[i].votes.len() <= l[i].votes.len() + 1,
        l[i].votes.contains(voter) ==> vote_spec(l, voter, text)[i].votes.len()
            <= l[i].votes.len(),
        !l[i].votes.contains(voter) ==> vote_spec(l, voter, text)[i].votes.len()
            == l[i].votes.len() + 1,
{
    assert(texts(l)[i] == text);
    lemma_without(l[i].votes, voter);
}

/// `votes` with every vote of `voter` taken out.
pub fn remove_voter(votes: &Vec<ProfilID>, voter: ProfilID) -> (r: Vec<ProfilID>)
    ensures
        r@ == without(votes@, voter),
{
    let mut r: Vec<ProfilID> = Vec::new();
    let mut i: usize = 0;
    while i < votes.len()
        invariant
            i <= votes.len(),
            r@ == without(votes@.take(i as int), voter),
        decreases votes.len() - i,
    {
        assert(votes@.take(i as int + 1).drop_last() =~= votes@.take(i as int));
        if votes[i] != voter {
            r.push(votes[i]);
        }
        i += 1;
    }
    assert(votes@.take(votes.len() as int) =~= votes@);
    r
}

/// A copy of a list of profile ids.
pub fn copy_ids(ids: &Vec<ProfilID>) -> (r: Vec<ProfilID>)
    ensures
        r@ == ids@,
{
    let mut r: Vec<ProfilID> = Vec::new();
    let mut i: usize = 0;
    while i < ids.len()
        invariant
            i <= ids.len(),
            r@ == ids@.take(i as int),
        decreases ids.len() - i,
    {
        r.push(ids[i]);
        i += 1;
        assert(r@ =~= ids@.take(i as int));
    }
    assert(ids@.take(ids.len() as int) =~= ids@);
    r
}

impl NickNameProposition {
    /// A copy holding the same values.
    pub fn duplicate(&self) -> (r: NickNameProposition)
        ensures
            r@ == self@,
    {
        NickNameProposition {
            author: self.author,
            proposition: self.proposition.clone(),
            votes: copy_ids(&self.votes),
            protected: self.protected,
        }
    }
}

/// A copy of a list of propositions.
pub fn copy_list(l: &Vec<NickNameProposition>) -> (r: Vec<NickNameProposition>)
    ensures
        list_view(r@) == list_view(l@),
{
    let mut r: Vec<NickNameProposition> = Vec::new();
    let mut i: usize = 0;
    while i < l.len()
        invariant
            i <= l.len(),
            r@.len() == i,
            forall|j: int| 0 <= j < i ==> #[trigger] r@[j]@ == l@[j]@,
        decreases l.len() - i,
    {
        r.push(l[i].duplicate());
        i += 1;
    }
    assert(list_view(r@) =~= list_view(l@));
    r
}

/// Position of the first proposition of the list whose text is exactly `text`.
pub fn find_proposition(l: &Vec<NickNameProposition>, text: &String) -> (r: Option<usize>)
    ensures
        opt_pos(r) == first_pos(texts(list_view(l@)), text@),
        r.is_some() ==> r.unwrap() < l@.len(),
{
    let ghost keys = texts(list_view(l@));
    let mut i: usize = 0;
    while i < l.len()
        invariant
            i <= l.len(),
            keys == texts(list_view(l@)),
            keys.len() == l.len(),
            first_pos(keys.take(i as int), text@) == -1,
        decreases l.len() - i,
    {
        proof {
            lemma_first_pos_step(keys, i as int, text@);
        }
        if l[i].proposition == *text {
            return Some(i);
        }
        i += 1;
    }
    proof {
        lemma_first_pos_done(keys, text@);
    }
    None
}

/// Records a vote of `voter` for `text` (already trimmed, not empty) in the list of
/// one target: the voter leaves every proposition, then joins the one named `text`,
/// which is created, authored by the voter and unprotected, when the list lacks it.
pub fn vote_in(l: &mut Vec<NickNameProposition>, voter: ProfilID, text: String)
    ensures
        list_view(final(l)@) == vote_spec(list_view(old(l)@), voter, text@),
{
    let ghost ol = list_view(l@);
    let mut out: Vec<NickNameProposition> = Vec::new();
    let mut found = false;
    let mut i: usize = 0;
    while i < l.len()
        invariant
            i <= l.len(),
            ol == list_view(l@),
            out@.len() == i,
            forall|j: int| 0 <= j < i ==> #[trigger] out@[j]@ == revote(ol[j], voter, text@),
            found == texts(ol).take(i as int).contains(text@),
        decreases l.len() - i,
    {
        let p = &l[i];
        let mut votes = remove_voter(&p.votes, voter);
        let same = p.proposition == text;
        if same {
            votes.push(voter);
        }
        proof {
            let t = texts(ol);
            let a = t.take(i as int);
            let b = t.take(i as int + 1);
            assert(b =~= a.push(t[i as int]));
            if b.contains(text@) {
                let j = choose|j: int| 0 <= j < b.len() && b[j] == text@;
                if j < i {
                    assert(a[j] == text@);
                }
            }
            if a.contains(text@) {
                let j = choose|j: int| 0 <= j < a.len() && a[j] == text@;
                assert(b[j] == text@);
            }
            if t[i as int] == text@ {
                assert(b[i as int] == text@);
            }
        }
        found = found || same;
        out.push(
            NickNameProposition {
                author: p.author,
                proposition: p.proposition.clone(),
                votes,
                protected: p.protected,
            },
        );
        i += 1;
    }
    assert(texts(ol).take(ol.len() as int) =~= texts(ol));
    let ghost m = ol.map_values(|p: PropositionView| revote(p, voter, text@));
    assert(list_view(out@) =~= m);
    if !found {
        let mut votes: Vec<ProfilID> = Vec::new();
        votes.push(voter);
        out.push(NickNameProposition { author: voter, proposition: text, votes, protected: false });
        assert(list_view(out@) =~= m.push(fresh_proposition(voter, text@)));
    }
    *l = out;
}

/// The list with every vote of `v` taken out.
pub open spec fn strip_voter(l: Seq<PropositionView>, v: ProfilID) -> Seq<PropositionView> {
    l.map_values(|p: PropositionView| PropositionView { votes: without(p.votes, v), ..p })
}

/// A copy of the list with every vote of `v` taken out.
pub fn strip_list(l: &Vec<NickNameProposition>, v: ProfilID) -> (r: Vec<NickNameProposition>)
    ensures
        list_view(r@) == strip_voter(list_view(l@), v),
{
    let mut r: Vec<NickNameProposition> = Vec::new();
    let mut i: usize = 0;
    while i < l.len()
        invariant
            i <= l.len(),
            r@.len() == i,
            forall|j: int|
                0 <= j < i ==> #[trigger] r@[j]@ == (PropositionView {
                    votes: without(l@[j]@.votes, v),
                    ..l@[j]@
                }),
        decreases l.len() - i,
    {
        let p = &l[i];
        r.push(
            NickNameProposition {
                author: p.author,
                proposition: p.proposition.clone(),
                votes: remove_voter(&p.votes, v),
                protected: p.protected,
            },
        );
        i += 1;
    }
    assert(list_view(r@) =~= strip_voter(list_view(l@), v));
    r
}

} // verus!
