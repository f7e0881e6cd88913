use crate::{first_pos, lemma_first_pos_distinct, lemma_first_pos, lemma_first_pos_done, lemma_first_pos_prefix, lemma_first_pos_step};
use vstd::prelude::*;

verus! {

/// A name together with the numeric id it is known under.
pub type KnownIds = Seq<(Seq<char>, u32)>;

/// The names of a list of known ids, in order.
pub open spec fn names_of(known: KnownIds) -> Seq<Seq<char>> {
    known.map_values(|e: (Seq<char>, u32)| e.0)
}

/// The largest id of the list, 0 for an empty list.
pub open spec fn max_id(known: KnownIds) -> u32
    decreases known.len(),
{
    if known.len() == 0 {
        0
    } else {
        let m = max_id(known.drop_last());
        if known.last().1 > m {
            known.last().1
        } else {
            m
        }
    }
}

/// Looks `name` up among the known ids; an unknown name gets the id after `last`
/// and is recorded. Returns the new list, the new last id and the id of `name`.
pub open spec fn assign_one(known: KnownIds, last: u32, name: Seq<char>) -> (KnownIds, u32, u32) {
    let p = first_pos(names_of(known), name);
    if p >= 0 {
        (known, last, known[p].1)
    } else {
        (known.push((name, (last + 1) as u32)), (last + 1) as u32, (last + 1) as u32)
    }
}

/// `assign_one` applied to each name in turn; the third component holds the id
/// given to each name.
pub open spec fn assign(known: KnownIds, last: u32, names: Seq<Seq<char>>) -> (
    KnownIds,
    u32,
    Seq<u32>,
)
    decreases names.len(),
{
    if names.len() == 0 {
        (known, last, Seq::empty())
    } else {
        let prev = assign(known, last, names.drop_last());
        let step = assign_one(prev.0, prev.1, names.last());
        (step.0, step.1, prev.2.push(step.2))
    }
}

/// How many of `names` the known ids lack.
pub open spec fn unseen_count(known: KnownIds, names: Seq<Seq<char>>) -> nat
    decreases names.len(),
{
    if names.len() == 0 {
        0
    } else {
        unseen_count(known, names.drop_last()) + if names_of(known).contains(names.last()) {
            0nat
        } else {
            1nat
        }
    }
}

/// No known id exceeds `max_id`.
pub proof fn lemma_max_id(known: KnownIds)
    ensures
        forall|j: int| 0 <= j < known.len() ==> known[j].1 <= max_id(known),
    decreases known.len(),
{
    if known.len() > 0 {
        lemma_max_id(known.drop_last());
        assert forall|j: int| 0 <= j < known.len() implies known[j].1 <= max_id(known) by {
            if j < known.len() - 1 {
                assert(known[j] == known.drop_last()[j]);
            }
        }
    }
}

/// Names that the known list all holds are none of them unseen.
pub proof fn lemma_unseen_zero(known: KnownIds, names: Seq<Seq<char>>)
    requires
        forall|i: int| 0 <= i < names.len() ==> names_of(known).contains(#[trigger] names[i]),
    ensures
        unseen_count(known, names) == 0,
    decreases names.len(),
{
    if names.len() > 0 {
        let init = names.drop_last();
        assert forall|i: int| 0 <= i < init.len() implies names_of(known).contains(#[trigger] init[i]) by {
            assert(init[i] == names[i]);
        }
        lemma_unseen_zero(known, init);
        assert(names_of(known).contains(names[names.len() - 1]));
    }
}

/// A prefix lacks no more names than the whole list.
pub proof fn lemma_unseen_prefix(known: KnownIds, names: Seq<Seq<char>>, n: int)
    requires
        0 <= n <= names.len(),
    ensures
        unseen_count(known, names.take(n)) <= unseen_count(known, names),
        n < names.len() ==> unseen_count(known, names.take(n + 1)) == unseen_count(
            known,
            names.take(n),
        ) + if names_of(known).contains(names[n]) {
            0nat
        } else {
            1nat
        },
    decreases names.len() - n,
{
    if n < names.len() {
        assert(names.take(n + 1).drop_last() =~= names.take(n));
        lemma_unseen_prefix(known, names, n + 1);
    } else {
        assert(names.take(n) =~= names);
    }
}

/// Assigning ids only grows the known list, never past the ids it starts from;
/// the counter grows only for names the starting list lacks; every id handed out,
/// and every id known afterwards, is at most the final counter.
pub proof fn lemma_assign_grows(known: KnownIds, last: u32, names: Seq<Seq<char>>)
    requires
        forall|j: int| 0 <= j < known.len() ==> known[j].1 <= last,
        last + unseen_count(known, names) <= u32::MAX,
    ensures
        ({
            let (k, c, ids) = assign(known, last, names);
            &&& last <= c <= last + unseen_count(known, names)
            &&& ids.len() == names.len()
            &&& k.len() >= known.len()
            &&& k.take(known.len() as int) == known
            &&& forall|i: int| 0 <= i < ids.len() ==> ids[i] <= c
            &&& forall|j: int| 0 <= j < k.len() ==> #[trigger] k[j].1 <= c
            &&& forall|n: Seq<char>|
                names_of(known).contains(n) ==> first_pos(names_of(k), n) >= 0
        }),
    decreases names.len(),
{
    if names.len() > 0 {
        let init = names.drop_last();
        lemma_assign_grows(known, last, init);
        let (k, c, ids) = assign(known, last, init);
        let n = names.last();
        let kn = names_of(k);
        assert(kn.take(known.len() as int) =~= names_of(known)) by {
            assert(k.take(known.len() as int) == known);
        }
        assert forall|m: Seq<char>| names_of(known).contains(m) implies first_pos(kn, m) >= 0 by {
            crate::lemma_first_pos_contains(names_of(known), m);
            lemma_first_pos_prefix(kn, known.len() as int, m);
        }
        lemma_first_pos(kn, n);
        let (k2, c2, ids2) = assign(known, last, names);
        assert(ids2 == ids.push(assign_one(k, c, n).2));
        if first_pos(kn, n) >= 0 {
            assert(k2 == k && c2 == c);
            assert(k[first_pos(kn, n)].1 <= c);
        } else {
            assert(!names_of(known).contains(n));
            assert(unseen_count(known, names) == unseen_count(known, init) + 1);
            assert(k2 == k.push((n, (c + 1) as u32)));
            assert forall|j: int| 0 <= j < k2.len() implies #[trigger] k2[j].1 <= c2 by {
                if j < k.len() {
                    assert(k2[j] == k[j]);
                }
            }
        }
        assert forall|i: int| 0 <= i < ids2.len() implies ids2[i] <= c2 by {
            if i < ids.len() {
                assert(ids2[i] == ids[i]);
            }
        }
        assert(k2.take(known.len() as int) =~= known) by {
            assert(k.take(known.len() as int) == known);
            assert forall|j: int| 0 <= j < known.len() implies k2[j] == k[j] by {}
        }
        assert forall|m: Seq<char>| names_of(known).contains(m) implies first_pos(
            names_of(k2),
            m,
        ) >= 0 by {
            if k2.len() > k.len() {
                assert(names_of(k2).take(k.len() as int) =~= kn);
                lemma_first_pos_prefix(names_of(k2), k.len() as int, m);
            }
        }
    } else {
        assert(known.take(known.len() as int) =~= known);
        assert forall|m: Seq<char>| names_of(known).contains(m) implies first_pos(
            names_of(known),
            m,
        ) >= 0 by {
            crate::lemma_first_pos_contains(names_of(known), m);
        }
    }
}

/// Reconciling names against a known id map, counting from its largest id `last`, keeps
/// the id of every name the map holds, and gives the names it lacks, when they are
/// distinct, exactly that many new ids: distinct, unused by the map, all above
/// `last`, and increasing in the order of the names.
pub proof fn lemma_assign_fresh(known: KnownIds, last: u32, names: Seq<Seq<char>>)
    requires
        last == max_id(known),
        last + unseen_count(known, names) <= u32::MAX,
        forall|i: int, j: int|
            0 <= i < names.len() && 0 <= j < names.len() && names[i] == names[j] ==> i == j,
    ensures
        ({
            let (k, c, ids) = assign(known, last, names);
            &&& ids.len() == names.len()
            &&& c == last + unseen_count(known, names)
            &&& forall|i: int|
                0 <= i < names.len() && names_of(known).contains(names[i]) ==> ids[i]
                    == known[first_pos(names_of(known), names[i])].1
            &&& forall|i: int|
                0 <= i < names.len() && !names_of(known).contains(names[i]) ==> last < ids[i]
                    <= c
            &&& forall|i: int, j: int|
                0 <= i < j < names.len() && !names_of(known).contains(names[i])
                    && !names_of(known).contains(names[j]) ==> ids[i] < ids[j]
            &&& forall|i: int, j: int|
                0 <= i < names.len() && !names_of(known).contains(names[i]) && 0 <= j
                    < known.len() ==> #[trigger] ids[i] != #[trigger] known[j].1
            &&& k.len() >= known.len()
            &&& k.take(known.len() as int) == known
            &&& forall|j: int| known.len() <= j < k.len() ==> last < #[trigger] k[j].1 <= c
            &&& forall|j: int| known.len() <= j < k.len() ==> names.contains(#[trigger] k[j].0)
        }),
    decreases names.len(),
{
    lemma_max_id(known);
    if names.len() > 0 {
        let init = names.drop_last();
        assert forall|i: int, j: int|
            0 <= i < init.len() && 0 <= j < init.len() && init[i] == init[j] implies i == j by {
            assert(names[i] == init[i] && names[j] == init[j]);
        }
        lemma_assign_fresh(known, last, init);
        lemma_assign_grows(known, last, init);
        let (k, c, ids) = assign(known, last, init);
        let n = names.last();
        let kn = names_of(k);
        let known_names = names_of(known);
        assert(kn.take(known.len() as int) =~= known_names) by {
            assert(k.take(known.len() as int) == known);
        }
        lemma_first_pos(kn, n);
        lemma_first_pos(known_names, n);
        assert forall|j: int| 0 <= j < init.len() implies init[j] != n by {
            assert(names[j] == init[j]);
        }
        if known_names.contains(n) {
            let q = first_pos(known_names, n);
            assert(q >= 0) by {
                let w = choose|w: int| 0 <= w < known_names.len() && known_names[w] == n;
            }
            lemma_first_pos_prefix(kn, known.len() as int, n);
            assert(kn.take(known.len() as int)[q] == kn[q]);
            assert(k[q] == known[q]);
        } else {
            let p = first_pos(kn, n);
            if p >= 0 {
                if p < known.len() {
                    assert(known_names[p] == kn[p]);
                    assert(k[p] == known[p]);
                } else {
                    let w = choose|w: int| 0 <= w < init.len() && init[w] == k[p].0;
                }
            }
        }
        let (k2, c2, ids2) = assign(known, last, names);
        assert(ids2 == ids.push(assign_one(k, c, n).2));
        assert forall|i: int|
            0 <= i < names.len() && names_of(known).contains(names[i]) implies ids2[i]
            == known[first_pos(names_of(known), names[i])].1 by {
            if i < init.len() {
                assert(names[i] == init[i]);
            }
        }
        assert forall|i: int|
            0 <= i < names.len() && !names_of(known).contains(names[i]) implies last < ids2[i]
            <= c2 by {
            if i < init.len() {
                assert(names[i] == init[i]);
            }
        }
        assert forall|i: int, j: int|
            0 <= i < j < names.len() && !names_of(known).contains(names[i])
                && !names_of(known).contains(names[j]) implies ids2[i] < ids2[j] by {
            assert(names[i] == init[i]);
            if j < init.len() {
                assert(names[j] == init[j]);
            }
        }
        assert(k2.take(known.len() as int) =~= known) by {
            assert(k.take(known.len() as int) == known);
            if k2.len() > k.len() {
                assert forall|j: int| 0 <= j < known.len() implies k2[j] == k[j] by {}
            }
        }
        assert forall|j: int| known.len() <= j < k2.len() implies last < k2[j].1 <= c2 && names.contains(
            k2[j].0,
        ) by {
            if j < k.len() {
                assert(k2[j] == k[j]);
                let w = choose|w: int| 0 <= w < init.len() && init[w] == k[j].0;
                assert(names[w] == init[w]);
            } else {
                assert(names[names.len() - 1] == n);
            }
        }
    }
}

/// Names that are exactly the known names, each once, keep their ids and allocate nothing.
pub proof fn lemma_assign_known(known: KnownIds, last: u32, names: Seq<Seq<char>>, n: int)
    requires
        names_of(known) == names,
        names.no_duplicates(),
        0 <= n <= names.len(),
    ensures
        assign(known, last, names.take(n)) == (
            known,
            last,
            known.map_values(|e: (Seq<char>, u32)| e.1).take(n),
        ),
    decreases n,
{
    if n > 0 {
        assert(names.take(n).drop_last() =~= names.take(n - 1));
        lemma_assign_known(known, last, names, n - 1);
        lemma_first_pos_distinct(names, n - 1);
        assert(known.map_values(|e: (Seq<char>, u32)| e.1).take(n) =~= known.map_values(
            |e: (Seq<char>, u32)| e.1,
        ).take(n - 1).push(known[n - 1].1));
    }
}

/// The ids known so far, and the last id handed out.
pub struct IdAllocator {
    known: Vec<(String, u32)>,
    last: u32,
}

impl IdAllocator {
    /// The known ids as plain values.
    pub closed spec fn known(&self) -> KnownIds {
        self.known@.map_values(|e: (String, u32)| (e.0@, e.1))
    }

    /// The last id handed out, or the largest id that was known at the start.
    pub closed spec fn last(&self) -> u32 {
        self.last
    }

    /// Starts from a list of names and ids; the counter starts at the largest id.
    pub fn new(known: Vec<(String, u32)>) -> (r: IdAllocator)
        ensures
            r.known() == known@.map_values(|e: (String, u32)| (e.0@, e.1)),
            r.last() == max_id(r.known()),
    {
        let ghost kv = known@.map_values(|e: (String, u32)| (e.0@, e.1));
        let mut m: u32 = 0;
        let mut i: usize = 0;
        while i < known.len()
            invariant
                i <= known.len(),
                kv == known@.map_values(|e: (String, u32)| (e.0@, e.1)),
                m == max_id(kv.take(i as int)),
            decreases known.len() - i,
        {
            assert(kv.take(i as int + 1).drop_last() =~= kv.take(i as int));
            if known[i].1 > m {
                m = known[i].1;
            }
            i += 1;
        }
        assert(kv.take(known.len() as int) =~= kv);
        IdAllocator { known, last: m }
    }

    /// The last id handed out.
    pub fn get_last(&self) -> (r: u32)
        ensures
            r == self.last(),
    {
        self.last
    }

    /// The id of `name`, allocated after the last one when `name` is unknown.
    pub fn get_or_allocate(&mut self, name: &String) -> (id: u32)
        requires
            first_pos(names_of(old(self).known()), name@) >= 0 || old(self).last() < u32::MAX,
        ensures
            (final(self).known(), final(self).last(), id) == assign_one(
                old(self).known(),
                old(self).last(),
                name@,
            ),
    {
        match self.find(name) {
            Some(i) => self.known[i].1,
            None => {
                self.last = self.last + 1;
                self.known.push((name.clone(), self.last));
                proof {
                    assert(self.known() =~= old(self).known().push((name@, self.last)));
                }
                self.last
            },
        }
    }

    /// Position of the first entry named `name`.
    fn find(&self, name: &String) -> (r: Option<usize>)
        ensures
            crate::opt_pos(r) == first_pos(names_of(self.known()), name@),
            r.is_some() ==> r.unwrap() < self.known@.len(),
    {
        let ghost keys = names_of(self.known());
        let mut i: usize = 0;
        while i < self.known.len()
            invariant
                i <= self.known@.len(),
                keys == names_of(self.known()),
                keys.len() == self.known@.len(),
                first_pos(keys.take(i as int), name@) == -1,
            decreases self.known.len() - i,
        {
            proof {
                lemma_first_pos_step(keys, i as int, name@);
            }
            if self.known[i].0 == *name {
                return Some(i);
            }
            i += 1;
        }
        proof {
            lemma_first_pos_done(keys, name@);
        }
        None
    }
}

} // verus!
