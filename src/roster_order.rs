use crate::data_server::Profil;
use crate::{first_pos, lemma_first_pos, ProfilID};
use vstd::prelude::*;
use vstd::string::StrSliceExecFns;

verus! {

/// Whether name `a` comes no later than name `b`: compared character by character
/// by code point, a prefix first. This is the order of `str`'s `Ord`.
pub open spec fn name_le(a: Seq<char>, b: Seq<char>) -> bool
    decreases a.len(),
{
    if a.len() == 0 {
        true
    } else if b.len() == 0 {
        false
    } else if (a[0] as u32) != (b[0] as u32) {
        (a[0] as u32) < (b[0] as u32)
    } else {
        name_le(a.skip(1), b.skip(1))
    }
}

/// Of two names, one comes no later than the other.
pub proof fn lemma_name_le_total(a: Seq<char>, b: Seq<char>)
    ensures
        name_le(a, b) || name_le(b, a),
    decreases a.len(),
{
    if a.len() > 0 && b.len() > 0 && (a[0] as u32) == (b[0] as u32) {
        lemma_name_le_total(a.skip(1), b.skip(1));
    }
}

/// The order on names is transitive.
pub proof fn lemma_name_le_trans(a: Seq<char>, b: Seq<char>, c: Seq<char>)
    requires
        name_le(a, b),
        name_le(b, c),
    ensures
        name_le(a, c),
    decreases a.len(),
{
    if a.len() > 0 && b.len() > 0 && c.len() > 0 && (a[0] as u32) == (b[0] as u32) && (b[0] as u32)
        == (c[0] as u32) {
        lemma_name_le_trans(a.skip(1), b.skip(1), c.skip(1));
    }
}

/// Whether name `a` comes no later than name `b`.
pub fn names_in_order(a: &String, b: &String) -> (r: bool)
    ensures
        r == name_le(a@, b@),
{
    let sa = a.as_str();
    let sb = b.as_str();
    let la = sa.unicode_len();
    let lb = sb.unicode_len();
    let mut i: usize = 0;
    assert(a@.skip(0) =~= a@ && b@.skip(0) =~= b@);
    while i < la && i < lb
        invariant
            sa@ == a@,
            sb@ == b@,
            la == a@.len(),
            lb == b@.len(),
            i <= la,
            i <= lb,
            name_le(a@, b@) == name_le(a@.skip(i as int), b@.skip(i as int)),
        decreases la - i,
    {
        let ca = sa.get_char(i);
        let cb = sb.get_char(i);
        assert(a@.skip(i as int)[0] == ca && b@.skip(i as int)[0] == cb);
        if (ca as u32) != (cb as u32) {
            return (ca as u32) < (cb as u32);
        }
        assert(a@.skip(i as int).skip(1) =~= a@.skip(i as int + 1));
        assert(b@.skip(i as int).skip(1) =~= b@.skip(i as int + 1));
        i += 1;
    }
    i == la
}

/// The name of a profile entry.
pub open spec fn entry_name(e: (ProfilID, Profil)) -> Seq<char> {
    e.1.identity.name@
}

/// For each entry, whether its name comes strictly after `x`'s.
pub open spec fn after(s: Seq<(ProfilID, Profil)>, x: (ProfilID, Profil)) -> Seq<bool> {
    s.map_values(|e: (ProfilID, Profil)| !name_le(entry_name(e), entry_name(x)))
}

/// Where `x` goes in a list sorted by name: before the first entry whose name
/// comes after its own, or at the end.
pub open spec fn name_insert_pos(s: Seq<(ProfilID, Profil)>, x: (ProfilID, Profil)) -> int {
    let p = first_pos(after(s, x), true);
    if p >= 0 {
        p
    } else {
        s.len() as int
    }
}

/// The entries sorted by name; entries with equal names keep their order.
pub open spec fn sort_by_name_spec(s: Seq<(ProfilID, Profil)>) -> Seq<(ProfilID, Profil)>
    decreases s.len(),
{
    if s.len() == 0 {
        s
    } else {
        let r = sort_by_name_spec(s.drop_last());
        r.insert(name_insert_pos(r, s.last()), s.last())
    }
}

/// Names never come back earlier along the list.
pub open spec fn by_name(s: Seq<(ProfilID, Profil)>) -> bool {
    forall|i: int, j: int| 0 <= i < j < s.len() ==> name_le(entry_name(s[i]), entry_name(s[j]))
}

/// Sorting by name gives a list sorted by name that holds the same entries, each as
/// many times.
pub proof fn lemma_sort_by_name(s: Seq<(ProfilID, Profil)>)
    ensures
        by_name(sort_by_name_spec(s)),
        sort_by_name_spec(s).to_multiset() == s.to_multiset(),
        sort_by_name_spec(s).len() == s.len(),
        forall|x: (ProfilID, Profil)| sort_by_name_spec(s).contains(x) <==> s.contains(x),
        s.no_duplicates() ==> sort_by_name_spec(s).no_duplicates(),
    decreases s.len(),
{
    broadcast use vstd::seq_lib::group_to_multiset_ensures;
    if s.len() == 0 {
    } else {
        let init = s.drop_last();
        let x = s.last();
        lemma_sort_by_name(init);
        let r = sort_by_name_spec(init);
        let keys = after(r, x);
        lemma_first_pos(keys, true);
        let p = name_insert_pos(r, x);
        let out = r.insert(p, x);
        assert forall|i: int, j: int| 0 <= i < j < out.len() implies name_le(
            entry_name(out[i]),
            entry_name(out[j]),
        ) by {
            if j < p {
                assert(out[i] == r[i] && out[j] == r[j]);
            } else if j == p {
                assert(out[i] == r[i]);
                assert(keys[i] == !name_le(entry_name(r[i]), entry_name(x)));
            } else if i == p {
                assert(out[j] == r[j - 1]);
                assert(keys[p] == !name_le(entry_name(r[p]), entry_name(x)));
                lemma_name_le_total(entry_name(r[p]), entry_name(x));
                if p < j - 1 {
                    lemma_name_le_trans(entry_name(x), entry_name(r[p]), entry_name(r[j - 1]));
                }
            } else if i < p {
                assert(out[i] == r[i] && out[j] == r[j - 1]);
            } else {
                assert(out[i] == r[i - 1] && out[j] == r[j - 1]);
            }
        }
        assert(r.insert(p, x) =~= r.take(p) + seq![x] + r.skip(p));
        assert(r =~= r.take(p) + r.skip(p));
        vstd::seq_lib::lemma_multiset_commutative(r.take(p), r.skip(p));
        vstd::seq_lib::lemma_multiset_commutative(r.take(p) + seq![x], r.skip(p));
        vstd::seq_lib::lemma_multiset_commutative(r.take(p), seq![x]);
        assert(s =~= init.push(x));
        assert forall|y: (ProfilID, Profil)| out.contains(y) <==> s.contains(y) by {
            if out.contains(y) {
                let w = choose|w: int| 0 <= w < out.len() && out[w] == y;
                if w < p {
                    assert(r[w] == y);
                } else if w > p {
                    assert(r[w - 1] == y);
                } else {
                    assert(s[s.len() - 1] == y);
                }
                if w != p {
                    assert(init.contains(y));
                    let v = choose|v: int| 0 <= v < init.len() && init[v] == y;
                    assert(s[v] == y);
                }
            }
            if s.contains(y) {
                let w = choose|w: int| 0 <= w < s.len() && s[w] == y;
                if w < s.len() - 1 {
                    assert(init[w] == y);
                    assert(init.contains(y));
                    assert(r.contains(y));
                    let v = choose|v: int| 0 <= v < r.len() && r[v] == y;
                    if v < p {
                        assert(out[v] == y);
                    } else {
                        assert(out[v + 1] == y);
                    }
                } else {
                    assert(out[p] == y);
                }
            }
        }
        if s.no_duplicates() {
            assert(init.no_duplicates()) by {
                assert forall|a: int, b: int| 0 <= a < init.len() && 0 <= b < init.len() && a != b implies init[a] != init[b] by {
                    assert(init[a] == s[a] && init[b] == s[b]);
                }
            }
            assert(!r.contains(x)) by {
                if r.contains(x) {
                    assert(init.contains(x));
                    let v = choose|v: int| 0 <= v < init.len() && init[v] == x;
                    assert(s[v] == s[s.len() - 1]);
                }
            }
            assert forall|a: int, b: int| 0 <= a < out.len() && 0 <= b < out.len() && a != b implies out[a] != out[b] by {
                let a2 = if a < p { a } else { a - 1 };
                let b2 = if b < p { b } else { b - 1 };
                if a == p {
                    assert(out[b] == r[b2]);
                } else if b == p {
                    assert(out[a] == r[a2]);
                } else {
                    assert(out[a] == r[a2] && out[b] == r[b2]);
                }
            }
        }
    }
}

/// Sorts profile entries by name; entries with equal names keep their order.
pub fn sort_by_name(v: &mut Vec<(ProfilID, Profil)>)
    ensures
        final(v)@ == sort_by_name_spec(old(v)@),
{
    let ghost sv = v@;
    let mut out: Vec<(ProfilID, Profil)> = Vec::new();
    while v.len() > 0
        invariant
            v@.len() <= sv.len(),
            v@ == sv.skip(sv.len() - v@.len()),
            out@ == sort_by_name_spec(sv.take(sv.len() - v@.len())),
        decreases v.len(),
    {
        let ghost done = sv.len() - v@.len();
        let ghost vv = v@;
        let x = v.remove(0);
        proof {
            assert(vv[0] == sv[done]);
            assert(v@ =~= sv.skip(done + 1));
        }
        let ghost r = out@;
        let ghost keys = after(r, x);
        let mut j: usize = 0;
        while j < out.len() && names_in_order(&out[j].1.identity.name, &x.1.identity.name)
            invariant
                j <= out@.len(),
                r == out@,
                keys == after(r, x),
                first_pos(keys.take(j as int), true) == -1,
            decreases out.len() - j,
        {
            proof {
                crate::lemma_first_pos_step(keys, j as int, true);
            }
            j += 1;
        }
        proof {
            if j == out.len() {
                crate::lemma_first_pos_done(keys, true);
            } else {
                crate::lemma_first_pos_step(keys, j as int, true);
            }
            assert(sv.take(done + 1).drop_last() =~= sv.take(done));
            assert(sv.take(done + 1).last() == x);
            assert(name_insert_pos(r, x) == j);
        }
        out.insert(j, x);
    }
    assert(sv.take(sv.len() as int) =~= sv);
    *v = out;
}

} // verus!
