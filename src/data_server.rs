use crate::ledger::{
    lemma_vote_existing_text, lemma_vote_single_ballot, ledger_list_ok, lemma_vote_keeps_ledger,
    lemma_swap_remove_keeps_ledger, lemma_protect_keeps_ledger, lemma_strip_keeps_ledger, lemma_without, lemma_without_no_dup, unique_texts, copy_list, find_proposition, list_view, remove_voter, strip_list, strip_voter, texts, vote_in,
    vote_spec, without, NickNameProposition, PropositionView,
};
use crate::compat;
use crate::mutation_tracker::MutationTracker;
use crate::packets;
use crate::packets::{sort_by_votes, sort_by_votes_spec, statut_views, StatutView};
use crate::permissions::{InteractionPermission, Permissions};
use crate::reconcile::{assign, lemma_assign_fresh, lemma_unseen_zero, lemma_assign_grows, lemma_unseen_prefix, lemma_assign_known, unseen_count, max_id, names_of, IdAllocator, KnownIds};
use crate::roster_order::{by_name, lemma_sort_by_name, name_le, sort_by_name, sort_by_name_spec};
use crate::serialization;
use crate::{first_pos, lemma_first_pos, lemma_first_pos_distinct, lemma_first_pos_done, lemma_first_pos_step, opt_pos};
use crate::{ClassID, Identity, ProfilID};
use vstd::prelude::*;
use vstd::string::StringExecFns;

verus! {

/// Whether `c` has Unicode's White_Space property, which `str::trim` strips.
pub open spec fn is_white_space(c: char) -> bool {
    let u = c as u32;
    (9 <= u <= 13) || u == 32 || u == 0x85 || u == 0xa0 || u == 0x1680 || (0x2000 <= u <= 0x200a)
        || u == 0x2028 || u == 0x2029 || u == 0x202f || u == 0x205f || u == 0x3000
}

/// The text without its leading white space.
pub open spec fn trim_start(s: Seq<char>) -> Seq<char>
    decreases s.len(),
{
    if s.len() > 0 && is_white_space(s[0]) {
        trim_start(s.skip(1))
    } else {
        s
    }
}

/// The text without its trailing white space.
pub open spec fn trim_end(s: Seq<char>) -> Seq<char>
    decreases s.len(),
{
    if s.len() > 0 && is_white_space(s.last()) {
        trim_end(s.drop_last())
    } else {
        s
    }
}

/// The text with leading and trailing white space removed, as `str::trim` gives it.
pub open spec fn trimmed(s: Seq<char>) -> Seq<char> {
    trim_end(trim_start(s))
}

/// Relies on `str::trim`: the text without leading and trailing white space (the
/// characters with Unicode's White_Space property).
#[verifier::external_body]
fn trim_text(s: &String) -> (r: String)
    ensures
        r@ == trimmed(s@),
{
    s.trim().to_string()
}

/// A live profile.
#[derive(Clone, Debug)]
pub struct Profil {
    pub identity: Identity,
    pub permissions: Permissions,
}

/// A named group of profiles.
#[derive(Clone, Debug)]
pub struct Class {
    pub name: String,
    pub profiles: Vec<ProfilID>,
}

/// A class as plain values.
pub struct ClassView {
    pub name: Seq<char>,
    pub profiles: Seq<ProfilID>,
}

impl View for Class {
    type V = ClassView;

    open spec fn view(&self) -> ClassView {
        ClassView { name: self.name@, profiles: self.profiles@ }
    }
}

/// Why an administrative operation failed.
#[derive(Clone, Debug)]
pub enum ServerError {
    /// No profile has this name.
    ProfilNotFound(String),
    /// No profile has this id.
    IdNotFound(ProfilID),
    /// No class has this name.
    ClassNotFound(String),
    /// The name is already taken.
    NameAlreadyUsed(String),
    /// Every numeric id has been handed out.
    NoFreeId,
}

/// The text that describes an error.
pub open spec fn message_spec(e: ServerError) -> Seq<char> {
    match e {
        ServerError::ProfilNotFound(n) => "no profile named "@ + n@,
        ServerError::IdNotFound(_) => "no profile has this id"@,
        ServerError::ClassNotFound(n) => "no class named "@ + n@,
        ServerError::NameAlreadyUsed(n) => "the name "@ + n@ + " is already used"@,
        ServerError::NoFreeId => "no id is left"@,
    }
}

impl ServerError {
    /// The text that describes the error.
    pub fn message(&self) -> (r: String)
        ensures
            r@ == message_spec(*self),
    {
        match self {
            ServerError::ProfilNotFound(n) => String::from_str("no profile named ").concat(n.as_str()),
            ServerError::IdNotFound(_) => String::from_str("no profile has this id"),
            ServerError::ClassNotFound(n) => String::from_str("no class named ").concat(n.as_str()),
            ServerError::NameAlreadyUsed(n) => String::from_str("the name ").concat(n.as_str()).concat(
                " is already used",
            ),
            ServerError::NoFreeId => String::from_str("no id is left"),
        }
    }
}

/// The ids of a keyed list, in order.
pub open spec fn keys<K, V>(s: Seq<(K, V)>) -> Seq<K> {
    s.map_values(|e: (K, V)| e.0)
}

/// Position of the first entry of `v` whose key is `id`.
pub fn position_of<V>(v: &Vec<(ProfilID, V)>, id: ProfilID) -> (r: Option<usize>)
    ensures
        opt_pos(r) == first_pos(keys(v@), id),
        r.is_some() ==> r.unwrap() < v@.len(),
{
    let ghost ks = keys(v@);
    let mut i: usize = 0;
    while i < v.len()
        invariant
            i <= v@.len(),
            ks == keys(v@),
            ks.len() == v@.len(),
            first_pos(ks.take(i as int), id) == -1,
        decreases v.len() - i,
    {
        proof {
            lemma_first_pos_step(ks, i as int, id);
        }
        if v[i].0 == id {
            return Some(i);
        }
        i += 1;
    }
    proof {
        lemma_first_pos_done(ks, id);
    }
    None
}

/// Whether `id` is among `v`.
pub fn contains_id(v: &Vec<ProfilID>, id: ProfilID) -> (r: bool)
    ensures
        r == v@.contains(id),
{
    let mut i: usize = 0;
    while i < v.len()
        invariant
            i <= v@.len(),
            forall|j: int| 0 <= j < i ==> v@[j] != id,
        decreases v.len() - i,
    {
        if v[i] == id {
            return true;
        }
        i += 1;
    }
    false
}

/// Proposition lists keyed by target, as plain values.
pub open spec fn nick_entries_view(v: Seq<(ProfilID, Vec<NickNameProposition>)>) -> Seq<
    (ProfilID, Seq<PropositionView>),
> {
    v.map_values(|e: (ProfilID, Vec<NickNameProposition>)| (e.0, list_view(e.1@)))
}

/// A copy of proposition lists keyed by target.
pub fn copy_entries(v: &Vec<(ProfilID, Vec<NickNameProposition>)>) -> (r: Vec<
    (ProfilID, Vec<NickNameProposition>),
>)
    ensures
        nick_entries_view(r@) == nick_entries_view(v@),
{
    let mut r: Vec<(ProfilID, Vec<NickNameProposition>)> = Vec::new();
    let mut i: usize = 0;
    while i < v.len()
        invariant
            i <= v@.len(),
            r@.len() == i,
            forall|j: int|
                0 <= j < i ==> (#[trigger] r@[j]).0 == v@[j].0 && list_view(r@[j].1@) == list_view(
                    v@[j].1@,
                ),
        decreases v.len() - i,
    {
        r.push((v[i].0, copy_list(&v[i].1)));
        i += 1;
    }
    assert(nick_entries_view(r@) =~= nick_entries_view(v@));
    r
}

/// The names and ids of the profile part of an id map document.
pub open spec fn profil_known(m: Seq<(ProfilID, String)>) -> KnownIds {
    m.map_values(|e: (ProfilID, String)| (e.1@, e.0.0))
}

/// The names and ids of the class part of an id map document.
pub open spec fn class_known(m: Seq<(ClassID, String)>) -> KnownIds {
    m.map_values(|e: (ClassID, String)| (e.1@, e.0.0))
}

/// The names of the profiles of a roster document.
pub open spec fn roster_names(p: Seq<serialization::Profil>) -> Seq<Seq<char>> {
    p.map_values(|e: serialization::Profil| e.identity.name@)
}

/// The names of the classes of a roster document.
pub open spec fn roster_class_names(c: Seq<serialization::Class>) -> Seq<Seq<char>> {
    c.map_values(|e: serialization::Class| e.name@)
}

/// The texts of a list of strings.
pub open spec fn string_views(v: Seq<String>) -> Seq<Seq<char>> {
    v.map_values(|e: String| e@)
}

/// The ids of the profiles of `ps` named among `people`, each once, in order of
/// first mention; names without a profile are skipped.
pub open spec fn resolve_live(ps: Seq<(ProfilID, Profil)>, people: Seq<Seq<char>>) -> Seq<ProfilID>
    decreases people.len(),
{
    if people.len() == 0 {
        Seq::empty()
    } else {
        let r = resolve_live(ps, people.drop_last());
        let p = first_pos(names_in(ps), people.last());
        if p >= 0 && !r.contains(ps[p].0) {
            r.push(ps[p].0)
        } else {
            r
        }
    }
}

/// The profiles of a roster document with the ids `ids` given to them in order; an
/// entry whose id or name an earlier entry already has is left out.
pub open spec fn load_spec(roster: Seq<serialization::Profil>, ids: Seq<u32>) -> Seq<
    (ProfilID, Profil),
>
    decreases roster.len(),
{
    if roster.len() == 0 {
        Seq::empty()
    } else {
        let prev = load_spec(roster.drop_last(), ids.take(roster.len() - 1));
        let e = (
            ProfilID(ids[roster.len() - 1]),
            Profil { identity: roster.last().identity, permissions: roster.last().permissions },
        );
        if keys(prev).contains(e.0) || names_in(prev).contains(e.1.identity.name@) {
            prev
        } else {
            prev.push(e)
        }
    }
}

/// Classes keyed by id, as plain values.
pub open spec fn class_views(v: Seq<(ClassID, Class)>) -> Seq<(ClassID, ClassView)> {
    v.map_values(|e: (ClassID, Class)| (e.0, e.1@))
}

/// The names of a list of classes, in order.
pub open spec fn class_names_in(cs: Seq<(ClassID, ClassView)>) -> Seq<Seq<char>> {
    cs.map_values(|e: (ClassID, ClassView)| e.1.name)
}

/// The classes of a roster document with the ids `ids` given to them in order, their
/// members resolved against the profiles `ps`; a class whose id or name an earlier
/// class already has is left out.
pub open spec fn load_classes_spec(
    ps: Seq<(ProfilID, Profil)>,
    classes: Seq<serialization::Class>,
    ids: Seq<u32>,
) -> Seq<(ClassID, ClassView)>
    decreases classes.len(),
{
    if classes.len() == 0 {
        Seq::empty()
    } else {
        let prev = load_classes_spec(ps, classes.drop_last(), ids.take(classes.len() - 1));
        let e = (
            ClassID(ids[classes.len() - 1]),
            ClassView {
                name: classes.last().name@,
                profiles: resolve_live(ps, string_views(classes.last().people@)),
            },
        );
        if keys(prev).contains(e.0) || class_names_in(prev).contains(e.1.name) {
            prev
        } else {
            prev.push(e)
        }
    }
}

/// Position of the first profile of `v` named `name`.
pub fn name_position(v: &Vec<(ProfilID, Profil)>, name: &String) -> (r: Option<usize>)
    ensures
        opt_pos(r) == first_pos(names_in(v@), name@),
        r.is_some() ==> r.unwrap() < v@.len(),
{
    let ghost ks = names_in(v@);
    let mut i: usize = 0;
    while i < v.len()
        invariant
            i <= v@.len(),
            ks == names_in(v@),
            ks.len() == v@.len(),
            first_pos(ks.take(i as int), name@) == -1,
        decreases v.len() - i,
    {
        proof {
            lemma_first_pos_step(ks, i as int, name@);
        }
        if v[i].1.identity.name == *name {
            return Some(i);
        }
        i += 1;
    }
    proof {
        lemma_first_pos_done(ks, name@);
    }
    None
}

/// Position of the first class of `v` named `name`.
pub fn class_position(v: &Vec<(ClassID, Class)>, name: &String) -> (r: Option<usize>)
    ensures
        opt_pos(r) == first_pos(class_names_in(class_views(v@)), name@),
        r.is_some() ==> r.unwrap() < v@.len(),
{
    let ghost ks = class_names_in(class_views(v@));
    let mut i: usize = 0;
    while i < v.len()
        invariant
            i <= v@.len(),
            ks == class_names_in(class_views(v@)),
            ks.len() == v@.len(),
            first_pos(ks.take(i as int), name@) == -1,
        decreases v.len() - i,
    {
        proof {
            lemma_first_pos_step(ks, i as int, name@);
        }
        if v[i].1.name == *name {
            return Some(i);
        }
        i += 1;
    }
    proof {
        lemma_first_pos_done(ks, name@);
    }
    None
}

/// Position of the first class of `v` whose id is `id`.
pub fn class_id_position(v: &Vec<(ClassID, Class)>, id: ClassID) -> (r: Option<usize>)
    ensures
        opt_pos(r) == first_pos(keys(class_views(v@)), id),
        r.is_some() ==> r.unwrap() < v@.len(),
{
    let ghost ks = keys(class_views(v@));
    let mut i: usize = 0;
    while i < v.len()
        invariant
            i <= v@.len(),
            ks == keys(class_views(v@)),
            ks.len() == v@.len(),
            first_pos(ks.take(i as int), id) == -1,
        decreases v.len() - i,
    {
        proof {
            lemma_first_pos_step(ks, i as int, id);
        }
        if v[i].0 == id {
            return Some(i);
        }
        i += 1;
    }
    proof {
        lemma_first_pos_done(ks, id);
    }
    None
}

/// The ids of the profiles of `ps` named among `people`, each once.
fn resolve_members(ps: &Vec<(ProfilID, Profil)>, people: &Vec<String>) -> (r: Vec<ProfilID>)
    ensures
        r@ == resolve_live(ps@, string_views(people@)),
        r@.no_duplicates(),
        forall|k: int| 0 <= k < r@.len() ==> keys(ps@).contains(#[trigger] r@[k]),
{
    let ghost names = string_views(people@);
    let mut r: Vec<ProfilID> = Vec::new();
    let mut i: usize = 0;
    while i < people.len()
        invariant
            i <= people@.len(),
            names == string_views(people@),
            r@ == resolve_live(ps@, names.take(i as int)),
            r@.no_duplicates(),
            forall|k: int| 0 <= k < r@.len() ==> keys(ps@).contains(#[trigger] r@[k]),
        decreases people.len() - i,
    {
        assert(names.take(i as int + 1).drop_last() =~= names.take(i as int));
        if let Some(q) = name_position(ps, &people[i]) {
            if !contains_id(&r, ps[q].0) {
                proof {
                    crate::lemma_no_dup_push(r@, ps@[q as int].0);
                    assert(keys(ps@)[q as int] == ps@[q as int].0);
                }
                r.push(ps[q].0);
            }
        }
        i += 1;
    }
    assert(names.take(people.len() as int) =~= names);
    r
}

/// Gives each profile of the roster its id, reusing the ids the allocator knows;
/// an entry whose id or name is already taken is left out.
fn load_profiles(alloc: &mut IdAllocator, profiles: &Vec<serialization::Profil>) -> (r: Vec<
    (ProfilID, Profil),
>)
    requires
        forall|j: int| 0 <= j < old(alloc).known().len() ==> old(alloc).known()[j].1 <= old(alloc).last(),
        old(alloc).last() + unseen_count(old(alloc).known(), roster_names(profiles@)) <= u32::MAX,
    ensures
        ({
            let (k, c, ids) = assign(old(alloc).known(), old(alloc).last(), roster_names(profiles@));
            &&& final(alloc).known() == k
            &&& final(alloc).last() == c
            &&& r@ == load_spec(profiles@, ids)
            &&& keys(r@).no_duplicates()
            &&& names_in(r@).no_duplicates()
            &&& forall|j: int| 0 <= j < r@.len() ==> (#[trigger] r@[j]).0.0 <= c
        }),
{
    let ghost k0 = alloc.known();
    let ghost c0 = alloc.last();
    let ghost names = roster_names(profiles@);
    let ghost ids: Seq<u32> = Seq::empty();
    let mut r: Vec<(ProfilID, Profil)> = Vec::new();
    let mut i: usize = 0;
    while i < profiles.len()
        invariant
            i <= profiles@.len(),
            names == roster_names(profiles@),
            forall|j: int| 0 <= j < k0.len() ==> k0[j].1 <= c0,
            c0 + unseen_count(k0, names) <= u32::MAX,
            assign(k0, c0, names.take(i as int)) == (alloc.known(), alloc.last(), ids),
            ids.len() == i,
            r@ == load_spec(profiles@.take(i as int), ids),
            keys(r@).no_duplicates(),
            names_in(r@).no_duplicates(),
            forall|j: int| 0 <= j < r@.len() ==> (#[trigger] r@[j]).0.0 <= alloc.last(),
        decreases profiles.len() - i,
    {
        proof {
            lemma_unseen_prefix(k0, names, i as int);
            lemma_unseen_prefix(k0, names, i as int + 1);
            lemma_assign_grows(k0, c0, names.take(i as int));
            assert(names.take(i as int + 1).drop_last() =~= names.take(i as int));
            assert(names.take(i as int + 1).last() == names[i as int]);
            crate::lemma_first_pos_contains(names_of(k0), names[i as int]);
        }
        let id = alloc.get_or_allocate(&profiles[i].identity.name);
        let ghost ids_before = ids;
        proof {
            lemma_assign_grows(k0, c0, names.take(i as int + 1));
            ids = ids.push(id);
            assert(ids.take(i as int) =~= ids_before);
            assert(profiles@.take(i as int + 1).drop_last() =~= profiles@.take(i as int));
            assert(ids.take(i as int) =~= ids.drop_last());
            assert(profiles@.take(i as int + 1).last() == profiles@[i as int]);
        }
        let taken_id = position_of(&r, ProfilID(id)).is_some();
        let taken_name = name_position(&r, &profiles[i].identity.name).is_some();
        proof {
            crate::lemma_first_pos_contains(keys(r@), ProfilID(id));
            crate::lemma_first_pos_contains(names_in(r@), profiles@[i as int].identity.name@);
            let t = profiles@.take(i as int + 1);
            assert(t.drop_last() =~= profiles@.take(i as int));
            assert(ids.take(t.len() - 1) =~= ids.drop_last());
            assert(load_spec(t.drop_last(), ids.take(t.len() - 1)) == r@);
        }
        if !taken_id && !taken_name {
            let e = (
                ProfilID(id),
                Profil {
                    identity: profiles[i].identity.duplicate(),
                    permissions: profiles[i].permissions,
                },
            );
            proof {
                crate::lemma_no_dup_push(keys(r@), e.0);
                crate::lemma_no_dup_push(names_in(r@), e.1.identity.name@);
                assert(keys(r@.push(e)) =~= keys(r@).push(e.0));
                assert(names_in(r@.push(e)) =~= names_in(r@).push(e.1.identity.name@));
            }
            r.push(e);
        }
        i += 1;
    }
    assert(names.take(profiles.len() as int) =~= names);
    assert(profiles@.take(profiles.len() as int) =~= profiles@);
    r
}

/// Gives each class of the roster its id and resolves its members against the
/// profiles `ps`; a class whose id or name is already taken is left out.
fn load_classes(
    alloc: &mut IdAllocator,
    ps: &Vec<(ProfilID, Profil)>,
    classes: &Vec<serialization::Class>,
) -> (r: Vec<(ClassID, Class)>)
    requires
        forall|j: int| 0 <= j < old(alloc).known().len() ==> old(alloc).known()[j].1 <= old(alloc).last(),
        old(alloc).last() + unseen_count(old(alloc).known(), roster_class_names(classes@)) <= u32::MAX,
    ensures
        ({
            let (k, c, ids) = assign(
                old(alloc).known(),
                old(alloc).last(),
                roster_class_names(classes@),
            );
            &&& final(alloc).known() == k
            &&& final(alloc).last() == c
            &&& class_views(r@) == load_classes_spec(ps@, classes@, ids)
            &&& keys(class_views(r@)).no_duplicates()
            &&& class_names_in(class_views(r@)).no_duplicates()
            &&& forall|j: int| 0 <= j < r@.len() ==> (#[trigger] r@[j]).0.0 <= c
            &&& forall|j: int| 0 <= j < r@.len() ==> (#[trigger] r@[j]).1@.profiles.no_duplicates()
            &&& forall|j: int, m: int|
                0 <= j < r@.len() && 0 <= m < r@[j].1@.profiles.len() ==> keys(ps@).contains(
                    #[trigger] r@[j].1@.profiles[m],
                )
        }),
{
    let ghost k0 = alloc.known();
    let ghost c0 = alloc.last();
    let ghost names = roster_class_names(classes@);
    let ghost ids: Seq<u32> = Seq::empty();
    let mut r: Vec<(ClassID, Class)> = Vec::new();
    let mut i: usize = 0;
    while i < classes.len()
        invariant
            i <= classes@.len(),
            names == roster_class_names(classes@),
            forall|j: int| 0 <= j < k0.len() ==> k0[j].1 <= c0,
            c0 + unseen_count(k0, names) <= u32::MAX,
            assign(k0, c0, names.take(i as int)) == (alloc.known(), alloc.last(), ids),
            ids.len() == i,
            class_views(r@) == load_classes_spec(ps@, classes@.take(i as int), ids),
            keys(class_views(r@)).no_duplicates(),
            class_names_in(class_views(r@)).no_duplicates(),
            forall|j: int| 0 <= j < r@.len() ==> (#[trigger] r@[j]).0.0 <= alloc.last(),
            forall|j: int| 0 <= j < r@.len() ==> (#[trigger] r@[j]).1@.profiles.no_duplicates(),
            forall|j: int, m: int|
                0 <= j < r@.len() && 0 <= m < r@[j].1@.profiles.len() ==> keys(ps@).contains(
                    #[trigger] r@[j].1@.profiles[m],
                ),
        decreases classes.len() - i,
    {
        proof {
            lemma_unseen_prefix(k0, names, i as int);
            lemma_unseen_prefix(k0, names, i as int + 1);
            lemma_assign_grows(k0, c0, names.take(i as int));
            assert(names.take(i as int + 1).drop_last() =~= names.take(i as int));
            assert(names.take(i as int + 1).last() == names[i as int]);
            crate::lemma_first_pos_contains(names_of(k0), names[i as int]);
        }
        let id = alloc.get_or_allocate(&classes[i].name);
        let ghost ids_before = ids;
        proof {
            lemma_assign_grows(k0, c0, names.take(i as int + 1));
            ids = ids.push(id);
            assert(ids.take(i as int) =~= ids_before);
            assert(classes@.take(i as int + 1).drop_last() =~= classes@.take(i as int));
            assert(ids.take(i as int) =~= ids.drop_last());
            assert(classes@.take(i as int + 1).last() == classes@[i as int]);
        }
        let taken_id = class_id_position(&r, ClassID(id)).is_some();
        let taken_name = class_position(&r, &classes[i].name).is_some();
        proof {
            crate::lemma_first_pos_contains(keys(class_views(r@)), ClassID(id));
            crate::lemma_first_pos_contains(class_names_in(class_views(r@)), classes@[i as int].name@);
            let t = classes@.take(i as int + 1);
            assert(t.drop_last() =~= classes@.take(i as int));
            assert(ids.take(t.len() - 1) =~= ids.drop_last());
            assert(load_classes_spec(ps@, t.drop_last(), ids.take(t.len() - 1)) == class_views(r@));
        }
        if !taken_id && !taken_name {
            let members = resolve_members(ps, &classes[i].people);
            let e = (ClassID(id), Class { name: classes[i].name.clone(), profiles: members });
            proof {
                crate::lemma_no_dup_push(keys(class_views(r@)), e.0);
                crate::lemma_no_dup_push(class_names_in(class_views(r@)), e.1@.name);
                assert(class_views(r@.push(e)) =~= class_views(r@).push((e.0, e.1@)));
                assert(keys(class_views(r@.push(e))) =~= keys(class_views(r@)).push(e.0));
                assert(class_names_in(class_views(r@.push(e))) =~= class_names_in(
                    class_views(r@),
                ).push(e.1@.name));
            }
            r.push(e);
        }
        i += 1;
    }
    assert(names.take(classes.len() as int) =~= names);
    assert(classes@.take(classes.len() as int) =~= classes@);
    r
}

/// The names of a list of profiles, in order.
pub open spec fn names_in(ps: Seq<(ProfilID, Profil)>) -> Seq<Seq<char>> {
    ps.map_values(|e: (ProfilID, Profil)| e.1.identity.name@)
}

/// Id and name pairs as plain values.
pub open spec fn pair_views(v: Seq<(ProfilID, String)>) -> Seq<(ProfilID, Seq<char>)> {
    v.map_values(|e: (ProfilID, String)| (e.0, e.1@))
}

/// The members of a class that have a profile, with their names, in order.
pub open spec fn member_entries(ps: Seq<(ProfilID, Profil)>, members: Seq<ProfilID>) -> Seq<
    (ProfilID, Seq<char>),
>
    decreases members.len(),
{
    if members.len() == 0 {
        Seq::empty()
    } else {
        let r = member_entries(ps, members.drop_last());
        let p = first_pos(keys(ps), members.last());
        if p >= 0 {
            r.push((members.last(), ps[p].1.identity.name@))
        } else {
            r
        }
    }
}

/// The ids of the profiles named in `voters`, in order; unknown names are skipped.
pub open spec fn voter_ids(ps: Seq<(ProfilID, Profil)>, voters: Seq<Seq<char>>) -> Seq<ProfilID>
    decreases voters.len(),
{
    if voters.len() == 0 {
        Seq::empty()
    } else {
        let r = voter_ids(ps, voters.drop_last());
        let p = first_pos(names_in(ps), voters.last());
        if p >= 0 {
            r.push(ps[p].0)
        } else {
            r
        }
    }
}

/// Whether `v` stands in the votes of some proposition of `l`.
pub open spec fn votes_in(l: Seq<PropositionView>, v: ProfilID) -> bool {
    exists|k: int| 0 <= k < l.len() && (#[trigger] l[k]).votes.contains(v)
}

/// The ids of `ids` that vote for no proposition of `l`, each once, in order.
pub open spec fn free_voters(l: Seq<PropositionView>, ids: Seq<ProfilID>) -> Seq<ProfilID>
    decreases ids.len(),
{
    if ids.len() == 0 {
        Seq::empty()
    } else {
        let r = free_voters(l, ids.drop_last());
        if votes_in(l, ids.last()) || r.contains(ids.last()) {
            r
        } else {
            r.push(ids.last())
        }
    }
}

/// The list `l` of profile `id` once the earlier nickname `n` was added to it: a
/// text the list already holds is skipped; otherwise it comes last, authored by its
/// first known voter (or `id` when none is known), unprotected, with those of its
/// voters that vote for nothing in the list yet.
pub open spec fn merge_one(
    l: Seq<PropositionView>,
    ps: Seq<(ProfilID, Profil)>,
    id: ProfilID,
    n: compat::Nickname,
) -> Seq<PropositionView> {
    let ids = voter_ids(ps, string_views(n.votes@));
    if texts(l).contains(n.nickname@) {
        l
    } else {
        l.push(
            PropositionView {
                author: if ids.len() > 0 {
                    ids[0]
                } else {
                    id
                },
                text: n.nickname@,
                votes: free_voters(l, ids),
                protected: false,
            },
        )
    }
}

/// `merge_one` applied to each earlier nickname in turn.
pub open spec fn merge_all(
    l: Seq<PropositionView>,
    ps: Seq<(ProfilID, Profil)>,
    id: ProfilID,
    olds: Seq<compat::Nickname>,
) -> Seq<PropositionView>
    decreases olds.len(),
{
    if olds.len() == 0 {
        l
    } else {
        merge_one(merge_all(l, ps, id, olds.drop_last()), ps, id, olds.last())
    }
}

/// The voters `free_voters` keeps are distinct and vote for nothing in the list.
pub proof fn lemma_free_voters(l: Seq<PropositionView>, ids: Seq<ProfilID>)
    ensures
        free_voters(l, ids).no_duplicates(),
        forall|x: ProfilID| free_voters(l, ids).contains(x) ==> !votes_in(l, x),
    decreases ids.len(),
{
    if ids.len() > 0 {
        lemma_free_voters(l, ids.drop_last());
        let r = free_voters(l, ids.drop_last());
        if !(votes_in(l, ids.last()) || r.contains(ids.last())) {
            crate::lemma_no_dup_push(r, ids.last());
        }
    }
}

/// Adding an earlier nickname keeps the invariant of a target's propositions.
pub proof fn lemma_merge_all_keeps_ledger(
    l: Seq<PropositionView>,
    ps: Seq<(ProfilID, Profil)>,
    id: ProfilID,
    olds: Seq<compat::Nickname>,
)
    requires
        ledger_list_ok(l),
    ensures
        ledger_list_ok(merge_all(l, ps, id, olds)),
    decreases olds.len(),
{
    if olds.len() > 0 {
        lemma_merge_all_keeps_ledger(l, ps, id, olds.drop_last());
        let m = merge_all(l, ps, id, olds.drop_last());
        let n = olds.last();
        if !texts(m).contains(n.nickname@) {
            let ids = voter_ids(ps, string_views(n.votes@));
            let fv = free_voters(m, ids);
            lemma_free_voters(m, ids);
            let r = merge_one(m, ps, id, n);
            assert forall|a: int, b: int|
                0 <= a < r.len() && 0 <= b < r.len() && r[a].text == r[b].text implies a == b by {
                if a < m.len() && b == m.len() {
                    assert(texts(m)[a] == n.nickname@);
                }
                if b < m.len() && a == m.len() {
                    assert(texts(m)[b] == n.nickname@);
                }
            }
            assert forall|a: int, b: int, v: ProfilID|
                0 <= a < r.len() && 0 <= b < r.len() && (#[trigger] r[a].votes.contains(v)) && (
                #[trigger] r[b].votes.contains(v)) implies a == b by {
                if a < m.len() && b == m.len() {
                    assert(r[a] == m[a]);
                    assert(votes_in(m, v));
                }
                if b < m.len() && a == m.len() {
                    assert(r[b] == m[b]);
                    assert(votes_in(m, v));
                }
                if a < m.len() && b < m.len() {
                    assert(r[a] == m[a] && r[b] == m[b]);
                }
            }
            assert forall|a: int| 0 <= a < r.len() implies (#[trigger] r[a]).votes.no_duplicates() by {
                if a < m.len() {
                    assert(r[a] == m[a]);
                }
            }
        }
    }
}

/// The proposition lists once the earlier nicknames of each known profile of
/// `group` were merged into its list, a list being created where none was.
pub open spec fn import_spec(
    nicks: Seq<(ProfilID, Seq<PropositionView>)>,
    ps: Seq<(ProfilID, Profil)>,
    group: Seq<(String, Vec<compat::Nickname>)>,
) -> Seq<(ProfilID, Seq<PropositionView>)>
    decreases group.len(),
{
    if group.len() == 0 {
        nicks
    } else {
        let prev = import_spec(nicks, ps, group.drop_last());
        let (name, olds) = group.last();
        let p = first_pos(names_in(ps), name@);
        if olds@.len() == 0 || p < 0 {
            prev
        } else {
            let id = ps[p].0;
            let np = first_pos(keys(prev), id);
            if np >= 0 {
                prev.update(np, (id, merge_all(prev[np].1, ps, id, olds@)))
            } else {
                prev.push((id, merge_all(Seq::empty(), ps, id, olds@)))
            }
        }
    }
}

/// Every proposition list with the votes of `v` taken out.
pub open spec fn strip_all(nicks: Seq<(ProfilID, Seq<PropositionView>)>, v: ProfilID) -> Seq<
    (ProfilID, Seq<PropositionView>),
> {
    nicks.map_values(|e: (ProfilID, Seq<PropositionView>)| (e.0, strip_voter(e.1, v)))
}

/// Every class with `v` taken out of its members.
pub open spec fn leave_all(cs: Seq<(ClassID, ClassView)>, v: ProfilID) -> Seq<(ClassID, ClassView)> {
    cs.map_values(
        |e: (ClassID, ClassView)| (e.0, ClassView { profiles: without(e.1.profiles, v), ..e.1 }),
    )
}

/// `members` followed by those of `ids` it lacks, each once, in order.
pub open spec fn join_all(members: Seq<ProfilID>, ids: Seq<ProfilID>) -> Seq<ProfilID>
    decreases ids.len(),
{
    if ids.len() == 0 {
        members
    } else {
        let r = join_all(members, ids.drop_last());
        if r.contains(ids.last()) {
            r
        } else {
            r.push(ids.last())
        }
    }
}

/// The profiles that no class holds, with their names, in order.
pub open spec fn lonely(ps: Seq<(ProfilID, Profil)>, cs: Seq<(ClassID, ClassView)>) -> Seq<
    (ProfilID, Seq<char>),
>
    decreases ps.len(),
{
    if ps.len() == 0 {
        Seq::empty()
    } else {
        let r = lonely(ps.drop_last(), cs);
        let id = ps.last().0;
        if exists|i: int| 0 <= i < cs.len() && (#[trigger] cs[i]).1.profiles.contains(id) {
            r
        } else {
            r.push((id, ps.last().1.identity.name@))
        }
    }
}

/// Resolving the names of members that all have a profile, against a list that
/// holds the same profiles, gives the members back when names and members are
/// distinct.
pub proof fn lemma_resolve_members(
    ps: Seq<(ProfilID, Profil)>,
    qs: Seq<(ProfilID, Profil)>,
    members: Seq<ProfilID>,
)
    requires
        names_in(ps).no_duplicates(),
        names_in(qs).no_duplicates(),
        forall|x: (ProfilID, Profil)| qs.contains(x) <==> ps.contains(x),
        members.no_duplicates(),
        forall|k: int| 0 <= k < members.len() ==> keys(ps).contains(#[trigger] members[k]),
    ensures
        resolve_live(qs, member_entries(ps, members).map_values(|e: (ProfilID, Seq<char>)| e.1))
            == members,
    decreases members.len(),
{
    if members.len() > 0 {
        let init = members.drop_last();
        let m = members.last();
        assert forall|k: int| 0 <= k < init.len() implies keys(ps).contains(#[trigger] init[k]) by {
            assert(init[k] == members[k]);
        }
        assert forall|a: int, b: int| 0 <= a < init.len() && 0 <= b < init.len() && a != b implies init[a] != init[b] by {
            assert(init[a] == members[a] && init[b] == members[b]);
        }
        lemma_resolve_members(ps, qs, init);
        assert(keys(ps).contains(members[members.len() - 1]));
        let q = first_pos(keys(ps), m);
        lemma_first_pos(keys(ps), m);
        crate::lemma_first_pos_contains(keys(ps), m);
        let e = member_entries(ps, members);
        let ei = member_entries(ps, init);
        assert(e == ei.push((m, ps[q].1.identity.name@)));
        let names = e.map_values(|x: (ProfilID, Seq<char>)| x.1);
        assert(names.drop_last() =~= ei.map_values(|x: (ProfilID, Seq<char>)| x.1));
        assert(names.last() == names_in(ps)[q]);
        assert(ps.contains(ps[q]));
        assert(qs.contains(ps[q]));
        let w = choose|w: int| 0 <= w < qs.len() && qs[w] == ps[q];
        assert(names_in(qs)[w] == names_in(ps)[q]);
        lemma_first_pos_distinct(names_in(qs), w);
        assert(keys(ps)[q] == ps[q].0);
        assert(!init.contains(m)) by {
            if init.contains(m) {
                let v = choose|v: int| 0 <= v < init.len() && init[v] == m;
                assert(members[v] == members[members.len() - 1]);
            }
        }
        assert(init.push(m) =~= members);
    }
}

/// Loading profiles whose ids and names are all distinct keeps every one of them.
pub proof fn lemma_load_all(
    roster: Seq<serialization::Profil>,
    ids: Seq<u32>,
    ps: Seq<(ProfilID, Profil)>,
    n: int,
)
    requires
        roster.len() == ps.len(),
        ids.len() == ps.len(),
        0 <= n <= ps.len(),
        forall|i: int|
            0 <= i < ps.len() ==> (#[trigger] ps[i]).0.0 == ids[i] && roster[i].identity
                == ps[i].1.identity && roster[i].permissions == ps[i].1.permissions,
        keys(ps).no_duplicates(),
        names_in(ps).no_duplicates(),
    ensures
        load_spec(roster.take(n), ids.take(n)) == ps.take(n),
    decreases n,
{
    if n > 0 {
        lemma_load_all(roster, ids, ps, n - 1);
        assert(roster.take(n).drop_last() =~= roster.take(n - 1));
        assert(ids.take(n).take(n - 1) =~= ids.take(n - 1));
        let prev = ps.take(n - 1);
        let e = ps[n - 1];
        assert(!keys(prev).contains(e.0)) by {
            if keys(prev).contains(e.0) {
                let w = choose|w: int| 0 <= w < keys(prev).len() && keys(prev)[w] == e.0;
                assert(keys(ps)[w] == keys(ps)[n - 1]);
            }
        }
        assert(!names_in(prev).contains(e.1.identity.name@)) by {
            if names_in(prev).contains(e.1.identity.name@) {
                let w = choose|w: int|
                    0 <= w < names_in(prev).len() && names_in(prev)[w] == e.1.identity.name@;
                assert(names_in(ps)[w] == names_in(ps)[n - 1]);
            }
        }
        assert(roster.take(n).last() == roster[n - 1]);
        assert(ps.take(n) =~= prev.push(e));
    }
}

/// Loading classes whose ids and names are all distinct keeps every one of them.
pub proof fn lemma_load_classes_all(
    ps: Seq<(ProfilID, Profil)>,
    classes: Seq<serialization::Class>,
    ids: Seq<u32>,
    cs: Seq<(ClassID, ClassView)>,
    n: int,
)
    requires
        classes.len() == cs.len(),
        ids.len() == cs.len(),
        0 <= n <= cs.len(),
        forall|i: int|
            0 <= i < cs.len() ==> (#[trigger] cs[i]).0.0 == ids[i] && classes[i].name@
                == cs[i].1.name && resolve_live(ps, string_views(classes[i].people@))
                == cs[i].1.profiles,
        keys(cs).no_duplicates(),
        class_names_in(cs).no_duplicates(),
    ensures
        load_classes_spec(ps, classes.take(n), ids.take(n)) == cs.take(n),
    decreases n,
{
    if n > 0 {
        lemma_load_classes_all(ps, classes, ids, cs, n - 1);
        assert(classes.take(n).drop_last() =~= classes.take(n - 1));
        assert(ids.take(n).take(n - 1) =~= ids.take(n - 1));
        let prev = cs.take(n - 1);
        let e = cs[n - 1];
        assert(!keys(prev).contains(e.0)) by {
            if keys(prev).contains(e.0) {
                let w = choose|w: int| 0 <= w < keys(prev).len() && keys(prev)[w] == e.0;
                assert(keys(cs)[w] == keys(cs)[n - 1]);
            }
        }
        assert(!class_names_in(prev).contains(e.1.name)) by {
            if class_names_in(prev).contains(e.1.name) {
                let w = choose|w: int|
                    0 <= w < class_names_in(prev).len() && class_names_in(prev)[w] == e.1.name;
                assert(class_names_in(cs)[w] == class_names_in(cs)[n - 1]);
            }
        }
        assert(classes.take(n).last() == classes[n - 1]);
        assert(cs.take(n) =~= prev.push(e));
    }
}

/// Every profile that no class holds is a profile.
pub proof fn lemma_lonely_keys(ps: Seq<(ProfilID, Profil)>, cs: Seq<(ClassID, ClassView)>)
    ensures
        forall|i: int|
            0 <= i < lonely(ps, cs).len() ==> keys(ps).contains(#[trigger] lonely(ps, cs)[i].0),
    decreases ps.len(),
{
    if ps.len() > 0 {
        let init = ps.drop_last();
        lemma_lonely_keys(init, cs);
        let l = lonely(ps, cs);
        let li = lonely(init, cs);
        assert forall|i: int| 0 <= i < l.len() implies keys(ps).contains(#[trigger] l[i].0) by {
            if i < li.len() {
                assert(l[i] == li[i]);
                assert(keys(init).contains(li[i].0));
                let w = choose|w: int| 0 <= w < keys(init).len() && keys(init)[w] == li[i].0;
                assert(keys(ps)[w] == keys(init)[w]);
            } else {
                assert(keys(ps)[ps.len() - 1] == ps.last().0);
            }
        }
    }
}

/// Joining ids to distinct members keeps them distinct, and within any set that
/// holds both.
pub proof fn lemma_join_all(members: Seq<ProfilID>, ids: Seq<ProfilID>, ks: Seq<ProfilID>)
    requires
        members.no_duplicates(),
        forall|k: int| 0 <= k < members.len() ==> ks.contains(#[trigger] members[k]),
        forall|k: int| 0 <= k < ids.len() ==> ks.contains(#[trigger] ids[k]),
    ensures
        join_all(members, ids).no_duplicates(),
        forall|k: int|
            0 <= k < join_all(members, ids).len() ==> ks.contains(#[trigger] join_all(members, ids)[k]),
    decreases ids.len(),
{
    if ids.len() > 0 {
        let init = ids.drop_last();
        assert forall|k: int| 0 <= k < init.len() implies ks.contains(#[trigger] init[k]) by {
            assert(init[k] == ids[k]);
        }
        lemma_join_all(members, init, ks);
        let r = join_all(members, init);
        if !r.contains(ids.last()) {
            crate::lemma_no_dup_push(r, ids.last());
            assert(ks.contains(ids[ids.len() - 1]));
            assert forall|k: int| 0 <= k < r.push(ids.last()).len() implies ks.contains(
                #[trigger] r.push(ids.last())[k],
            ) by {
                if k < r.len() {
                    assert(r.push(ids.last())[k] == r[k]);
                }
            }
        }
    }
}

/// One step of loading profiles.
pub proof fn lemma_load_step(roster: Seq<serialization::Profil>, ids: Seq<u32>, n: int)
    requires
        0 <= n < roster.len(),
        ids.len() == roster.len(),
    ensures
        ({
            let prev = load_spec(roster.take(n), ids.take(n));
            let e = (
                ProfilID(ids[n]),
                Profil { identity: roster[n].identity, permissions: roster[n].permissions },
            );
            load_spec(roster.take(n + 1), ids.take(n + 1)) == if keys(prev).contains(e.0)
                || names_in(prev).contains(e.1.identity.name@) {
                prev
            } else {
                prev.push(e)
            }
        }),
{
    assert(roster.take(n + 1).drop_last() =~= roster.take(n));
    assert(ids.take(n + 1).take(n) =~= ids.take(n));
    assert(roster.take(n + 1).last() == roster[n]);
}

/// Loading more of the roster only appends profiles.
pub proof fn lemma_load_prefix(roster: Seq<serialization::Profil>, ids: Seq<u32>, n: int, m: int)
    requires
        0 <= n <= m <= roster.len(),
        ids.len() == roster.len(),
    ensures
        load_spec(roster.take(m), ids.take(m)).len() >= load_spec(roster.take(n), ids.take(n)).len(),
        load_spec(roster.take(m), ids.take(m)).take(load_spec(roster.take(n), ids.take(n)).len() as int)
            == load_spec(roster.take(n), ids.take(n)),
    decreases m - n,
{
    let l = load_spec(roster.take(n), ids.take(n));
    if m > n {
        lemma_load_prefix(roster, ids, n, m - 1);
        lemma_load_step(roster, ids, m - 1);
        let prev = load_spec(roster.take(m - 1), ids.take(m - 1));
        let cur = load_spec(roster.take(m), ids.take(m));
        assert(cur.take(l.len() as int) =~= prev.take(l.len() as int));
    } else {
        assert(l.take(l.len() as int) =~= l);
    }
}

/// Every profile loaded from a prefix of the roster has the id and the name of an
/// entry of that prefix.
pub proof fn lemma_load_origin(roster: Seq<serialization::Profil>, ids: Seq<u32>, n: int)
    requires
        0 <= n <= roster.len(),
        ids.len() == roster.len(),
    ensures
        forall|q: int|
            0 <= q < load_spec(roster.take(n), ids.take(n)).len() ==> exists|j: int|
                0 <= j < n && (#[trigger] load_spec(roster.take(n), ids.take(n))[q]).0 == ProfilID(ids[j])
                    && load_spec(roster.take(n), ids.take(n))[q].1.identity.name@
                    == roster[j].identity.name@,
    decreases n,
{
    if n > 0 {
        lemma_load_origin(roster, ids, n - 1);
        lemma_load_step(roster, ids, n - 1);
        let prev = load_spec(roster.take(n - 1), ids.take(n - 1));
        let cur = load_spec(roster.take(n), ids.take(n));
        assert forall|q: int| 0 <= q < cur.len() implies exists|j: int|
            0 <= j < n && (#[trigger] cur[q]).0 == ProfilID(ids[j]) && cur[q].1.identity.name@
                == roster[j].identity.name@ by {
            if q < prev.len() {
                assert(cur[q] == prev[q]);
                let j = choose|j: int|
                    0 <= j < n - 1 && (#[trigger] prev[q]).0 == ProfilID(ids[j])
                        && prev[q].1.identity.name@ == roster[j].identity.name@;
            } else {
                assert(cur[q].0 == ProfilID(ids[n - 1]));
            }
        }
    }
}

/// Whether `v` votes for some proposition of `l`.
pub fn votes_in_list(l: &Vec<NickNameProposition>, v: ProfilID) -> (r: bool)
    ensures
        r == votes_in(list_view(l@), v),
{
    let mut i: usize = 0;
    while i < l.len()
        invariant
            i <= l@.len(),
            forall|k: int| 0 <= k < i ==> !(#[trigger] list_view(l@)[k]).votes.contains(v),
        decreases l.len() - i,
    {
        if contains_id(&l[i].votes, v) {
            assert(list_view(l@)[i as int].votes.contains(v));
            return true;
        }
        i += 1;
    }
    false
}

/// The ids of `ids` that vote for nothing in `l`, each once.
pub fn free_voter_list(l: &Vec<NickNameProposition>, ids: &Vec<ProfilID>) -> (r: Vec<ProfilID>)
    ensures
        r@ == free_voters(list_view(l@), ids@),
{
    let mut r: Vec<ProfilID> = Vec::new();
    let mut k: usize = 0;
    while k < ids.len()
        invariant
            k <= ids@.len(),
            r@ == free_voters(list_view(l@), ids@.take(k as int)),
        decreases ids.len() - k,
    {
        assert(ids@.take(k as int + 1).drop_last() =~= ids@.take(k as int));
        if !votes_in_list(l, ids[k]) && !contains_id(&r, ids[k]) {
            r.push(ids[k]);
        }
        k += 1;
    }
    assert(ids@.take(ids.len() as int) =~= ids@);
    r
}

/// The in-memory store: profiles, classes and nickname propositions, each in a
/// tracker that records whether it was written since it was last saved.
pub struct DataServer {
    id_to_profil: MutationTracker<Vec<(ProfilID, Profil)>>,
    free_profil_id_beginning: u32,
    classes: MutationTracker<Vec<(ClassID, Class)>>,
    free_class_id_beginning: u32,
    nick_name_proposition: MutationTracker<Vec<(ProfilID, Vec<NickNameProposition>)>>,
    new_ids_allocated: bool,
}

impl DataServer {
    /// The profiles, by id.
    pub closed spec fn profiles(&self) -> Seq<(ProfilID, Profil)> {
        self.id_to_profil.value()@
    }

    /// The classes, by id.
    pub closed spec fn class_seq(&self) -> Seq<(ClassID, ClassView)> {
        class_views(self.classes.value()@)
    }

    /// The propositions of each target profile.
    pub closed spec fn nicknames(&self) -> Seq<(ProfilID, Seq<PropositionView>)> {
        nick_entries_view(self.nick_name_proposition.value()@)
    }

    /// The last profile id handed out.
    pub closed spec fn last_profil_id(&self) -> u32 {
        self.free_profil_id_beginning
    }

    /// The last class id handed out.
    pub closed spec fn last_class_id(&self) -> u32 {
        self.free_class_id_beginning
    }

    /// Whether loading had to give some name a new id.
    pub closed spec fn allocated_on_load(&self) -> bool {
        self.new_ids_allocated
    }

    /// Whether the profiles were written since they were last saved.
    pub closed spec fn profiles_dirty(&self) -> bool {
        self.id_to_profil.is_dirty()
    }

    /// Whether the classes were written since they were last saved.
    pub closed spec fn classes_dirty(&self) -> bool {
        self.classes.is_dirty()
    }

    /// Whether the propositions were written since they were last saved.
    pub closed spec fn nicknames_dirty(&self) -> bool {
        self.nick_name_proposition.is_dirty()
    }

    /// Position of the profile `id`, -1 when there is none.
    pub open spec fn profil_pos(&self, id: ProfilID) -> int {
        first_pos(keys(self.profiles()), id)
    }

    /// Position of the proposition list of `target`, -1 when there is none.
    pub open spec fn nick_pos(&self, target: ProfilID) -> int {
        first_pos(keys(self.nicknames()), target)
    }

    /// The propositions of `target`, empty when it has no list.
    pub open spec fn nick_list(&self, target: ProfilID) -> Seq<PropositionView> {
        if self.nick_pos(target) >= 0 {
            self.nicknames()[self.nick_pos(target)].1
        } else {
            Seq::empty()
        }
    }

    /// The permissions of profile `id`, if it exists.
    pub open spec fn permissions_of(&self, id: ProfilID) -> Option<Permissions> {
        if self.profil_pos(id) >= 0 {
            Some(self.profiles()[self.profil_pos(id)].1.permissions)
        } else {
            None
        }
    }

    /// Some class holds both profiles.
    pub open spec fn same_class(&self, a: ProfilID, b: ProfilID) -> bool {
        exists|i: int|
            0 <= i < self.class_seq().len() && (#[trigger] self.class_seq()[i]).1.profiles.contains(
                a,
            ) && self.class_seq()[i].1.profiles.contains(b)
    }

    /// Whether `scope` lets `editor` act on `target`.
    pub open spec fn allowed(
        &self,
        scope: InteractionPermission,
        editor: ProfilID,
        target: ProfilID,
    ) -> bool {
        match scope {
            InteractionPermission::Forbidden => false,
            InteractionPermission::YourSelf => editor == target,
            InteractionPermission::SameClass => self.same_class(editor, target),
            InteractionPermission::AnyBody => true,
        }
    }

    /// What `requester` may do on `target`: vote, delete, bypass protection.
    pub open spec fn rights(&self, requester: ProfilID, target: ProfilID) -> (bool, bool, bool) {
        match self.permissions_of(requester) {
            Some(p) => (
                self.allowed(p.vote, requester, target),
                self.allowed(p.delete, requester, target),
                self.allowed(p.protect_nickname, requester, target),
            ),
            None => (false, false, false),
        }
    }

    /// `after` differs from `before` in the propositions at most.
    pub open spec fn same_but_nicknames(before: &DataServer, after: &DataServer) -> bool {
        &&& after.profiles() == before.profiles()
        &&& after.class_seq() == before.class_seq()
        &&& after.last_profil_id() == before.last_profil_id()
        &&& after.last_class_id() == before.last_class_id()
        &&& after.allocated_on_load() == before.allocated_on_load()
        &&& after.profiles_dirty() == before.profiles_dirty()
        &&& after.classes_dirty() == before.classes_dirty()
    }

    /// `after` is `before` once `voter` voted for `text` (already trimmed) on `target`.
    /// Nothing changes when the voter has no profile, may not vote on the target, the
    /// text is empty, or the target has neither propositions nor a profile.
    pub open spec fn vote_outcome(
        before: &DataServer,
        after: &DataServer,
        voter: ProfilID,
        target: ProfilID,
        text: Seq<char>,
    ) -> bool {
        let np = before.nick_pos(target);
        if !before.rights(voter, target).0 || text.len() == 0 || (np < 0 && before.profil_pos(
            target,
        ) < 0) {
            *after == *before
        } else {
            &&& Self::same_but_nicknames(before, after)
            &&& after.nicknames_dirty()
            &&& after.nicknames() == if np >= 0 {
                before.nicknames().update(
                    np,
                    (target, vote_spec(before.nicknames()[np].1, voter, text)),
                )
            } else {
                before.nicknames().push((target, vote_spec(Seq::empty(), voter, text)))
            }
        }
    }

    /// `after` is `before` once `deleter` asked to delete the proposition `text` of
    /// `target`. It is removed (the last proposition takes its place) when the
    /// deleter may delete on the target or authored it, and it is unprotected or the
    /// deleter may bypass protection on the target; otherwise nothing changes.
    pub open spec fn delete_outcome(
        before: &DataServer,
        after: &DataServer,
        deleter: ProfilID,
        target: ProfilID,
        text: Seq<char>,
    ) -> bool {
        let np = before.nick_pos(target);
        let l = before.nick_list(target);
        let i = first_pos(texts(l), text);
        let (_, may_delete, may_bypass) = before.rights(deleter, target);
        if before.permissions_of(deleter).is_none() || np < 0 || i < 0 || !((may_delete
            || l[i].author == deleter) && (!l[i].protected || may_bypass)) {
            *after == *before
        } else {
            &&& Self::same_but_nicknames(before, after)
            &&& after.nicknames_dirty()
            &&& after.nicknames() == before.nicknames().update(
                np,
                (target, l.update(i, l.last()).drop_last()),
            )
        }
    }

    /// `after` is `before` once `editor` set the protection of the proposition `text`
    /// of `target` to `state`; only an editor whose protect scope covers the target
    /// changes anything.
    pub open spec fn protect_outcome(
        before: &DataServer,
        after: &DataServer,
        editor: ProfilID,
        target: ProfilID,
        text: Seq<char>,
        state: bool,
    ) -> bool {
        let np = before.nick_pos(target);
        let l = before.nick_list(target);
        let i = first_pos(texts(l), text);
        if !before.rights(editor, target).2 || np < 0 || i < 0 {
            *after == *before
        } else {
            &&& Self::same_but_nicknames(before, after)
            &&& after.nicknames_dirty()
            &&& after.nicknames() == before.nicknames().update(
                np,
                (target, l.update(i, PropositionView { protected: state, ..l[i] })),
            )
        }
    }

    /// The views of the propositions keep the length and the keys of the container.
    proof fn lemma_nicknames_len(&self)
        ensures
            self.nicknames().len() == self.nick_name_proposition.value()@.len(),
            keys(self.nicknames()) == keys(self.nick_name_proposition.value()@),
    {
        assert(keys(self.nicknames()) =~= keys(self.nick_name_proposition.value()@));
    }

    /// Whether some class holds both profiles.
    pub fn are_in_same_class(&self, a: ProfilID, b: ProfilID) -> (r: bool)
        ensures
            r == self.same_class(a, b),
    {
        let classes = self.classes.get();
        let mut i: usize = 0;
        while i < classes.len()
            invariant
                i <= classes@.len(),
                *classes == self.classes.value(),
                forall|j: int|
                    0 <= j < i ==> !((#[trigger] self.class_seq()[j]).1.profiles.contains(a)
                        && self.class_seq()[j].1.profiles.contains(b)),
            decreases classes.len() - i,
        {
            if contains_id(&classes[i].1.profiles, a) && contains_id(&classes[i].1.profiles, b) {
                assert(self.class_seq()[i as int].1.profiles.contains(a));
                return true;
            }
            i += 1;
        }
        false
    }

    /// Whether `interaction_permission` lets `editor` act on `target`.
    pub fn is_action_allowed_between(
        &self,
        interaction_permission: InteractionPermission,
        editor: ProfilID,
        target: ProfilID,
    ) -> (r: bool)
        ensures
            r == self.allowed(interaction_permission, editor, target),
    {
        match interaction_permission {
            InteractionPermission::Forbidden => false,
            InteractionPermission::YourSelf => editor == target,
            InteractionPermission::SameClass => self.are_in_same_class(editor, target),
            InteractionPermission::AnyBody => true,
        }
    }

    /// The permissions of profile `profil_id`, if it exists.
    pub fn get_permission(&self, profil_id: ProfilID) -> (r: Option<Permissions>)
        ensures
            r == self.permissions_of(profil_id),
    {
        match position_of(self.id_to_profil.get(), profil_id) {
            Some(i) => Some(self.id_to_profil.get()[i].1.permissions),
            None => None,
        }
    }

    /// Whether `requester` may vote, delete, and bypass protection on `asked_profil`.
    pub fn get_permission_on_profil(&self, requester: ProfilID, asked_profil: ProfilID) -> (r: (
        bool,
        bool,
        bool,
    ))
        ensures
            r == self.rights(requester, asked_profil),
    {
        let Some(permission) = self.get_permission(requester) else {
            return (false, false, false);
        };
        (
            self.is_action_allowed_between(permission.vote, requester, asked_profil),
            self.is_action_allowed_between(permission.delete, requester, asked_profil),
            self.is_action_allowed_between(permission.protect_nickname, requester, asked_profil),
        )
    }

    /// Records a vote of `voter` for `proposition` on `target`; the text is trimmed first.
    pub fn vote(&mut self, voter: ProfilID, target: ProfilID, proposition: String)
        requires
            old(self).wf(),
        ensures
            proposition@.len() == 0 || (!is_white_space(proposition@[0]) && !is_white_space(
                proposition@.last(),
            )) ==> trimmed(proposition@) == proposition@,
            Self::vote_outcome(old(self), final(self), voter, target, trimmed(proposition@)),
            final(self).wf(),
            old(self).ledger_ok() ==> final(self).ledger_ok(),
    {
        let text = trim_text(&proposition);
        self.record_vote(voter, target, text);
    }

    /// Records a vote of `voter` for `text`, taken as it is, on `target`.
    pub fn record_vote(&mut self, voter: ProfilID, target: ProfilID, text: String)
        requires
            old(self).wf(),
        ensures
            Self::vote_outcome(old(self), final(self), voter, target, text@),
            final(self).wf(),
            old(self).ledger_ok() ==> final(self).ledger_ok(),
    {
        let ghost start_state = *self;
        let ghost tv = text@;
        let Some(permissions) = self.get_permission(voter) else {
            return;
        };
        if !self.is_action_allowed_between(permissions.vote, voter, target) {
            return;
        }
        if text.as_str().is_empty() {
            return;
        }
        proof {
            self.lemma_nicknames_len();
        }
        match position_of(self.nick_name_proposition.get(), target) {
            Some(i) => {
                let ghost before = *self;
                let ghost old_v = self.nick_name_proposition.value()@;
                let list = self.nick_name_proposition.get_mut();
                let (k, mut props) = list.remove(i);
                vote_in(&mut props, voter, text);
                let ghost entry = (k, props);
                list.insert(i, (k, props));
                proof {
                    lemma_first_pos(keys(old_v), target);
                    assert(old_v[i as int].0 == keys(old_v)[i as int]);
                    assert(self.nick_name_proposition.value()@ =~= old_v.update(i as int, entry));
                    assert(self.nicknames() =~= before.nicknames().update(
                        i as int,
                        (target, vote_spec(before.nicknames()[i as int].1, voter, text@)),
                    ));
                }
            },
            None => {
                if position_of(self.id_to_profil.get(), target).is_none() {
                    return;
                }
                let ghost before = *self;
                let mut props: Vec<NickNameProposition> = Vec::new();
                vote_in(&mut props, voter, text);
                self.nick_name_proposition.get_mut().push((target, props));
                proof {
                    assert(list_view(Seq::<NickNameProposition>::empty()) =~= Seq::empty());
                    assert(self.nicknames() =~= before.nicknames().push(
                        (target, vote_spec(Seq::empty(), voter, text@)),
                    ));
                }
            },
        }
        proof {
            if start_state.ledger_ok() {
                Self::lemma_ledger_vote(&start_state, &*self, voter, target, tv);
            }
        }
    }

    /// Asks to delete the proposition `nickname` of `target` on behalf of `deleter`.
    pub fn delete(&mut self, deleter: ProfilID, target: ProfilID, nickname: String)
        requires
            old(self).wf(),
        ensures
            Self::delete_outcome(old(self), final(self), deleter, target, nickname@),
            final(self).wf(),
            old(self).ledger_ok() ==> final(self).ledger_ok(),
    {
        let ghost start_state = *self;
        let ghost tv = nickname@;
        let Some(permissions) = self.get_permission(deleter) else {
            return;
        };
        let is_allowed_to_delete = self.is_action_allowed_between(
            permissions.delete,
            deleter,
            target,
        );
        let can_by_pass_protect = self.is_action_allowed_between(
            permissions.protect_nickname,
            deleter,
            target,
        );
        proof {
            self.lemma_nicknames_len();
        }
        let Some(np) = position_of(self.nick_name_proposition.get(), target) else {
            return;
        };
        let Some(i) = find_proposition(&self.nick_name_proposition.get()[np].1, &nickname) else {
            return;
        };
        let author = self.nick_name_proposition.get()[np].1[i].author;
        let protected = self.nick_name_proposition.get()[np].1[i].protected;
        if (is_allowed_to_delete || author == deleter) && (!protected || can_by_pass_protect) {
            let ghost before = *self;
            let ghost old_v = self.nick_name_proposition.value()@;
            let ghost l = list_view(old_v[np as int].1@);
            proof {
                lemma_first_pos(texts(l), nickname@);
            }
            let list = self.nick_name_proposition.get_mut();
            let (k, mut props) = list.remove(np);
            props.swap_remove(i);
            proof {
                assert(list_view(props@) =~= l.update(i as int, l.last()).drop_last());
            }
            let ghost entry = (k, props);
            list.insert(np, (k, props));
            proof {
                lemma_first_pos(keys(old_v), target);
                assert(old_v[np as int].0 == keys(old_v)[np as int]);
                assert(self.nick_name_proposition.value()@ =~= old_v.update(np as int, entry));
                assert(self.nicknames() =~= before.nicknames().update(
                    np as int,
                    (target, l.update(i as int, l.last()).drop_last()),
                ));
            }
        }
        proof {
            if start_state.ledger_ok() {
                Self::lemma_ledger_delete(&start_state, &*self, deleter, target, tv);
            }
        }
    }

    /// Sets the protection of the proposition `nickname` of `target` on behalf of `editor`.
    pub fn update_nickname_protection(
        &mut self,
        editor: ProfilID,
        target: ProfilID,
        nickname: String,
        protection_statut: bool,
    )
        requires
            old(self).wf(),
        ensures
            Self::protect_outcome(
                old(self),
                final(self),
                editor,
                target,
                nickname@,
                protection_statut,
            ),
            final(self).wf(),
            old(self).ledger_ok() ==> final(self).ledger_ok(),
    {
        let ghost start_state = *self;
        let ghost tv = nickname@;
        let Some(permissions) = self.get_permission(editor) else {
            return;
        };
        if !self.is_action_allowed_between(permissions.protect_nickname, editor, target) {
            return;
        }
        proof {
            self.lemma_nicknames_len();
        }
        let Some(np) = position_of(self.nick_name_proposition.get(), target) else {
            return;
        };
        let Some(i) = find_proposition(&self.nick_name_proposition.get()[np].1, &nickname) else {
            return;
        };
        let ghost before = *self;
        let ghost old_v = self.nick_name_proposition.value()@;
        let ghost l = list_view(old_v[np as int].1@);
        proof {
            lemma_first_pos(texts(l), nickname@);
        }
        let list = self.nick_name_proposition.get_mut();
        let (k, mut props) = list.remove(np);
        let mut p = props.remove(i);
        p.protected = protection_statut;
        props.insert(i, p);
        proof {
            assert(list_view(props@) =~= l.update(
                i as int,
                PropositionView { protected: protection_statut, ..l[i as int] },
            ));
        }
        let ghost entry = (k, props);
        list.insert(np, (k, props));
        proof {
            lemma_first_pos(keys(old_v), target);
            assert(old_v[np as int].0 == keys(old_v)[np as int]);
            assert(self.nick_name_proposition.value()@ =~= old_v.update(np as int, entry));
            assert(self.nicknames() =~= before.nicknames().update(
                np as int,
                (
                    target,
                    l.update(i as int, PropositionView { protected: protection_statut, ..l[i as int] }),
                ),
            ));
        }
        proof {
            if start_state.ledger_ok() {
                Self::lemma_ledger_protect(&start_state, &*self, editor, target, tv, protection_statut);
            }
        }
    }

    /// What `requester`, if any, may do on `target`: vote, delete, bypass protection.
    pub open spec fn opt_rights(&self, requester: Option<ProfilID>, target: ProfilID) -> (
        bool,
        bool,
        bool,
    ) {
        match requester {
            Some(q) => self.rights(q, target),
            None => (false, false, false),
        }
    }

    /// How `requester` sees the proposition `p` of `target`: its text, its number of
    /// votes, whether the requester voted for it, and whether the requester may delete it.
    pub open spec fn statut_spec(
        &self,
        requester: Option<ProfilID>,
        target: ProfilID,
        p: PropositionView,
    ) -> (Seq<char>, nat, bool, bool) {
        let (_, may_delete, may_bypass) = self.opt_rights(requester, target);
        (
            p.text,
            p.votes.len(),
            match requester {
                Some(q) => p.votes.contains(q),
                None => false,
            },
            (may_delete || requester == Some(p.author)) && (!p.protected || may_bypass),
        )
    }

    /// The propositions of `asked_profil` as `requester` sees them, in stored order.
    fn stored_projection(&self, requester: Option<ProfilID>, asked_profil: ProfilID) -> (r:
        packets::Profile)
        ensures
            r.profil_id == asked_profil,
            r.allowed_to_vote == self.opt_rights(requester, asked_profil).0,
            r.nicknames@.len() == self.nick_list(asked_profil).len(),
            forall|i: int|
                0 <= i < r.nicknames@.len() ==> ({
                    let s = #[trigger] r.nicknames@[i];
                    (s.proposition@, s.count as nat, s.contain_you, s.allowed_to_be_delete)
                        == self.statut_spec(requester, asked_profil, self.nick_list(asked_profil)[i])
                }),
    {
        let (allowed_to_vote, allowed_to_delete, can_protect) = match requester {
            Some(q) => self.get_permission_on_profil(q, asked_profil),
            None => (false, false, false),
        };
        let mut nicknames: Vec<packets::NicknameStatut> = Vec::new();
        proof {
            self.lemma_nicknames_len();
        }
        if let Some(np) = position_of(self.nick_name_proposition.get(), asked_profil) {
            let props = &self.nick_name_proposition.get()[np].1;
            let mut i: usize = 0;
            while i < props.len()
                invariant
                    i <= props@.len(),
                    self.nick_pos(asked_profil) == np,
                    list_view(props@) == self.nick_list(asked_profil),
                    (allowed_to_vote, allowed_to_delete, can_protect) == self.opt_rights(
                        requester,
                        asked_profil,
                    ),
                    nicknames@.len() == i,
                    forall|j: int|
                        0 <= j < i ==> ({
                            let s = #[trigger] nicknames@[j];
                            (s.proposition@, s.count as nat, s.contain_you, s.allowed_to_be_delete)
                                == self.statut_spec(
                                requester,
                                asked_profil,
                                self.nick_list(asked_profil)[j],
                            )
                        }),
                decreases props.len() - i,
            {
                let p = &props[i];
                let contain_you = match requester {
                    Some(q) => contains_id(&p.votes, q),
                    None => false,
                };
                let is_author = match requester {
                    Some(q) => q == p.author,
                    None => false,
                };
                nicknames.push(
                    packets::NicknameStatut {
                        proposition: p.proposition.clone(),
                        count: p.votes.len(),
                        contain_you,
                        allowed_to_be_delete: (allowed_to_delete || is_author) && (!p.protected
                            || can_protect),
                    },
                );
                i += 1;
            }
        }
        packets::Profile { profil_id: asked_profil, nicknames, allowed_to_vote }
    }

    /// A copy of the propositions when they changed since the last call, and clears
    /// their flag.
    pub fn try_to_save_nickname(&mut self) -> (r: Option<Vec<(ProfilID, Vec<NickNameProposition>)>>)
        requires
            old(self).wf(),
        ensures
            r.is_some() == old(self).nicknames_dirty(),
            r.is_some() ==> nick_entries_view(r.unwrap()@) == old(self).nicknames(),
            !final(self).nicknames_dirty(),
            final(self).nicknames() == old(self).nicknames(),
            Self::same_but_nicknames(old(self), final(self)),
            final(self).wf(),
    {
        if self.nick_name_proposition.clear_dirty() {
            Some(copy_entries(self.nick_name_proposition.get()))
        } else {
            None
        }
    }

    /// Marks the propositions as changed, so that the next save writes them again.
    pub fn keep_nicknames_unsaved(&mut self)
        requires
            old(self).wf(),
        ensures
            final(self).nicknames() == old(self).nicknames(),
            final(self).nicknames_dirty(),
            Self::same_but_nicknames(old(self), final(self)),
            final(self).wf(),
    {
        let _ = self.nick_name_proposition.get_mut();
    }

    /// Marks the profiles and classes as changed, so that the next save writes the
    /// roster and the id map again.
    pub fn keep_roster_unsaved(&mut self)
        requires
            old(self).wf(),
        ensures
            final(self).profiles() == old(self).profiles(),
            final(self).class_seq() == old(self).class_seq(),
            final(self).nicknames() == old(self).nicknames(),
            final(self).nicknames_dirty() == old(self).nicknames_dirty(),
            final(self).last_profil_id() == old(self).last_profil_id(),
            final(self).last_class_id() == old(self).last_class_id(),
            final(self).allocated_on_load() == old(self).allocated_on_load(),
            final(self).profiles_dirty(),
            final(self).classes_dirty(),
            final(self).wf(),
    {
        let _ = self.id_to_profil.get_mut();
        let _ = self.classes.get_mut();
    }

    /// Replaces the propositions by those read from storage; they start clean.
    pub fn load_proposition(&mut self, nick_name_proposition: Vec<(ProfilID, Vec<NickNameProposition>)>)
        requires
            old(self).wf(),
        ensures
            final(self).nicknames() == nick_entries_view(nick_name_proposition@),
            !final(self).nicknames_dirty(),
            Self::same_but_nicknames(old(self), final(self)),
            final(self).wf(),
    {
        self.nick_name_proposition = MutationTracker::new(nick_name_proposition);
    }

    /// The names of the profiles, in order.
    pub open spec fn profil_names(&self) -> Seq<Seq<char>> {
        names_in(self.profiles())
    }

    /// Position of the first profile named `name`, -1 when there is none.
    pub open spec fn name_pos(&self, name: Seq<char>) -> int {
        first_pos(self.profil_names(), name)
    }

    /// Position of the first profile named `name`.
    fn find_name(&self, name: &String) -> (r: Option<usize>)
        ensures
            opt_pos(r) == self.name_pos(name@),
            r.is_some() ==> r.unwrap() < self.profiles().len(),
    {
        name_position(self.id_to_profil.get(), name)
    }

    /// The id of the profile named `name`.
    pub fn get_profil_id(&self, name: &String) -> (r: Result<ProfilID, ServerError>)
        ensures
            r == (if self.name_pos(name@) >= 0 {
                Ok(self.profiles()[self.name_pos(name@)].0)
            } else {
                Err(ServerError::ProfilNotFound(*name))
            }),
    {
        match self.find_name(name) {
            Some(i) => Ok(self.id_to_profil.get()[i].0),
            None => Err(ServerError::ProfilNotFound(name.clone())),
        }
    }

    /// The id of the profile that `identity` names, when its password matches.
    pub fn log(&self, identity: &Identity) -> (r: Option<ProfilID>)
        ensures
            r == (if self.name_pos(identity.name@) >= 0 && self.profiles()[self.name_pos(
                identity.name@,
            )].1.identity.password@ == identity.password@ {
                Some(self.profiles()[self.name_pos(identity.name@)].0)
            } else {
                None::<ProfilID>
            }),
    {
        match self.find_name(&identity.name) {
            Some(i) => {
                if self.id_to_profil.get()[i].1.identity.password == identity.password {
                    Some(self.id_to_profil.get()[i].0)
                } else {
                    None
                }
            },
            None => None,
        }
    }

    /// `self` is the store built from the roster document `roster` and the id map
    /// document `map`.
    pub open spec fn loaded_from(
        &self,
        roster: &serialization::PeopleRepartition,
        map: &serialization::IdMap,
    ) -> bool {
        let pk = profil_known(map.profil_mapping@);
        let (_, pc, pids) = assign(pk, max_id(pk), roster_names(roster.profiles@));
        let ck = class_known(map.class_mapping@);
        let (_, cc, cids) = assign(ck, max_id(ck), roster_class_names(roster.classes@));
        let ps = load_spec(roster.profiles@, pids);
        &&& self.profiles() == ps
        &&& self.class_seq() == load_classes_spec(ps, roster.classes@, cids)
        &&& self.nicknames().len() == 0
        &&& self.last_profil_id() == pc
        &&& self.last_class_id() == cc
        &&& self.allocated_on_load() == (pc != max_id(pk) || cc != max_id(ck))
        &&& !self.profiles_dirty()
        &&& !self.classes_dirty()
        &&& !self.nicknames_dirty()
    }

    /// `m` is the id map document of `self`: each profile and each class with its id.
    pub open spec fn id_map_of(&self, m: &serialization::IdMap) -> bool {
        &&& m.profil_mapping@.len() == self.profiles().len()
        &&& forall|i: int|
            0 <= i < m.profil_mapping@.len() ==> (#[trigger] m.profil_mapping@[i]).0
                == self.profiles()[i].0 && m.profil_mapping@[i].1 == self.profiles()[i].1.identity.name
        &&& m.class_mapping@.len() == self.class_seq().len()
        &&& forall|i: int|
            0 <= i < m.class_mapping@.len() ==> (#[trigger] m.class_mapping@[i]).0
                == self.class_seq()[i].0 && m.class_mapping@[i].1@ == self.class_seq()[i].1.name
    }

    /// `d` is the roster document of `self`: its profiles sorted by name (a
    /// permutation of the store's, equal names in store order), and each class with
    /// the names of its members that have a profile.
    pub open spec fn roster_of(&self, d: &serialization::PeopleRepartition) -> bool {
        let sorted = sort_by_name_spec(self.profiles());
        &&& d.profiles@.len() == self.profiles().len()
        &&& forall|i: int|
            0 <= i < d.profiles@.len() ==> (#[trigger] d.profiles@[i]).identity == sorted[i].1.identity
                && d.profiles@[i].permissions == sorted[i].1.permissions
        &&& forall|i: int, j: int|
            0 <= i < j < d.profiles@.len() ==> name_le(
                d.profiles@[i].identity.name@,
                d.profiles@[j].identity.name@,
            )
        &&& sorted.to_multiset() == self.profiles().to_multiset()
        &&& d.classes@.len() == self.class_seq().len()
        &&& forall|i: int|
            0 <= i < d.classes@.len() ==> (#[trigger] d.classes@[i]).name@ == self.class_seq()[i].1.name
                && string_views(d.classes@[i].people@) == member_entries(
                self.profiles(),
                self.class_seq()[i].1.profiles,
            ).map_values(|e: (ProfilID, Seq<char>)| e.1)
    }

    /// Builds the store from a roster document and an id map document. A name the
    /// map holds keeps its id; any other name gets the id after the largest one
    /// used so far, separately for profiles and for classes. A profile or class
    /// whose id or name an earlier entry already took is left out, so the store is
    /// well formed. Class members are resolved by name against the loaded profiles
    /// only: a name that only the id map knows is no member. Everything starts clean.
    pub fn new(repartition: serialization::PeopleRepartition, id_map: serialization::IdMap) -> (r:
        Self)
        requires
            max_id(profil_known(id_map.profil_mapping@)) + unseen_count(
                profil_known(id_map.profil_mapping@),
                roster_names(repartition.profiles@),
            ) <= u32::MAX,
            max_id(class_known(id_map.class_mapping@)) + unseen_count(
                class_known(id_map.class_mapping@),
                roster_class_names(repartition.classes@),
            ) <= u32::MAX,
        ensures
            r.loaded_from(&repartition, &id_map),
            r.wf(),
    {
        let mut profil_pairs: Vec<(String, u32)> = Vec::new();
        let mut i: usize = 0;
        while i < id_map.profil_mapping.len()
            invariant
                i <= id_map.profil_mapping@.len(),
                profil_pairs@.len() == i,
                forall|j: int|
                    0 <= j < i ==> (#[trigger] profil_pairs@[j]).0@ == id_map.profil_mapping@[j].1@
                        && profil_pairs@[j].1 == id_map.profil_mapping@[j].0.0,
            decreases id_map.profil_mapping.len() - i,
        {
            profil_pairs.push((id_map.profil_mapping[i].1.clone(), id_map.profil_mapping[i].0.0));
            i += 1;
        }
        assert(profil_pairs@.map_values(|e: (String, u32)| (e.0@, e.1)) =~= profil_known(
            id_map.profil_mapping@,
        ));
        let mut class_pairs: Vec<(String, u32)> = Vec::new();
        let mut i: usize = 0;
        while i < id_map.class_mapping.len()
            invariant
                i <= id_map.class_mapping@.len(),
                class_pairs@.len() == i,
                forall|j: int|
                    0 <= j < i ==> (#[trigger] class_pairs@[j]).0@ == id_map.class_mapping@[j].1@
                        && class_pairs@[j].1 == id_map.class_mapping@[j].0.0,
            decreases id_map.class_mapping.len() - i,
        {
            class_pairs.push((id_map.class_mapping[i].1.clone(), id_map.class_mapping[i].0.0));
            i += 1;
        }
        assert(class_pairs@.map_values(|e: (String, u32)| (e.0@, e.1)) =~= class_known(
            id_map.class_mapping@,
        ));
        let mut profil_alloc = IdAllocator::new(profil_pairs);
        let profil_start = profil_alloc.get_last();
        proof {
            crate::reconcile::lemma_max_id(profil_alloc.known());
        }
        let id_to_profil = load_profiles(&mut profil_alloc, &repartition.profiles);
        let mut class_alloc = IdAllocator::new(class_pairs);
        let class_start = class_alloc.get_last();
        proof {
            crate::reconcile::lemma_max_id(class_alloc.known());
        }
        let classes = load_classes(&mut class_alloc, &id_to_profil, &repartition.classes);
        let free_profil_id_beginning = profil_alloc.get_last();
        let free_class_id_beginning = class_alloc.get_last();
        let r = DataServer {
            id_to_profil: MutationTracker::new(id_to_profil),
            free_profil_id_beginning,
            classes: MutationTracker::new(classes),
            free_class_id_beginning,
            nick_name_proposition: MutationTracker::new(Vec::new()),
            new_ids_allocated: free_profil_id_beginning != profil_start || free_class_id_beginning
                != class_start,
        };
        assert(r.nicknames() =~= Seq::empty());
        r
    }

    /// The members that have a profile, with their names.
    fn members_of(&self, members: &Vec<ProfilID>) -> (r: Vec<(ProfilID, String)>)
        ensures
            pair_views(r@) == member_entries(self.profiles(), members@),
    {
        let ps = self.id_to_profil.get();
        let mut r: Vec<(ProfilID, String)> = Vec::new();
        let mut i: usize = 0;
        while i < members.len()
            invariant
                i <= members@.len(),
                *ps == self.id_to_profil.value(),
                pair_views(r@) == member_entries(self.profiles(), members@.take(i as int)),
            decreases members.len() - i,
        {
            assert(members@.take(i as int + 1).drop_last() =~= members@.take(i as int));
            proof {
                lemma_first_pos(keys(self.profiles()), members@[i as int]);
            }
            if let Some(p) = position_of(ps, members[i]) {
                let ghost before = r@;
                r.push((members[i], ps[p].1.identity.name.clone()));
                assert(pair_views(r@) =~= pair_views(before).push(
                    (members@[i as int], self.profiles()[p as int].1.identity.name@),
                ));
            }
            i += 1;
        }
        assert(members@.take(members.len() as int) =~= members@);
        r
    }

    /// Every class with its members and their names.
    pub fn class_list(&self) -> (r: packets::ClassList)
        ensures
            r.classes@.len() == self.class_seq().len(),
            forall|i: int|
                0 <= i < r.classes@.len() ==> (#[trigger] r.classes@[i]).0 == self.class_seq()[i].0
                    && r.classes@[i].1.name@ == self.class_seq()[i].1.name && pair_views(
                    r.classes@[i].1.profiles@,
                ) == member_entries(self.profiles(), self.class_seq()[i].1.profiles),
    {
        let cs = self.classes.get();
        let mut out: Vec<(ClassID, packets::Class)> = Vec::new();
        let mut i: usize = 0;
        while i < cs.len()
            invariant
                i <= cs@.len(),
                *cs == self.classes.value(),
                out@.len() == i,
                forall|j: int|
                    0 <= j < i ==> (#[trigger] out@[j]).0 == self.class_seq()[j].0 && out@[j].1.name@
                        == self.class_seq()[j].1.name && pair_views(out@[j].1.profiles@)
                        == member_entries(self.profiles(), self.class_seq()[j].1.profiles),
            decreases cs.len() - i,
        {
            let profiles = self.members_of(&cs[i].1.profiles);
            out.push((cs[i].0, packets::Class { name: cs[i].1.name.clone(), profiles }));
            i += 1;
        }
        packets::ClassList { classes: out }
    }

    /// The id map document: each profile and each class with its id.
    pub fn build_id_map(&self) -> (r: serialization::IdMap)
        ensures
            self.id_map_of(&r),
    {
        let ps = self.id_to_profil.get();
        let mut profil_mapping: Vec<(ProfilID, String)> = Vec::new();
        let mut i: usize = 0;
        while i < ps.len()
            invariant
                i <= ps@.len(),
                *ps == self.id_to_profil.value(),
                profil_mapping@.len() == i,
                forall|j: int|
                    0 <= j < i ==> (#[trigger] profil_mapping@[j]).0 == self.profiles()[j].0
                        && profil_mapping@[j].1 == self.profiles()[j].1.identity.name,
            decreases ps.len() - i,
        {
            profil_mapping.push((ps[i].0, ps[i].1.identity.name.clone()));
            i += 1;
        }
        let cs = self.classes.get();
        let mut class_mapping: Vec<(ClassID, String)> = Vec::new();
        let mut i: usize = 0;
        while i < cs.len()
            invariant
                i <= cs@.len(),
                *cs == self.classes.value(),
                class_mapping@.len() == i,
                forall|j: int|
                    0 <= j < i ==> (#[trigger] class_mapping@[j]).0 == self.class_seq()[j].0
                        && class_mapping@[j].1@ == self.class_seq()[j].1.name,
            decreases cs.len() - i,
        {
            class_mapping.push((cs[i].0, cs[i].1.name.clone()));
            i += 1;
        }
        serialization::IdMap { profil_mapping, class_mapping }
    }

    /// The id map document when loading had to give some name a new id, so that it
    /// can be written at once; none otherwise.
    pub fn generated_id_map(&self) -> (r: Option<serialization::IdMap>)
        ensures
            r.is_some() == self.allocated_on_load(),
            r.is_some() ==> self.id_map_of(&r.unwrap()),
    {
        if self.new_ids_allocated {
            Some(self.build_id_map())
        } else {
            None
        }
    }

    /// The roster document when profiles or classes changed since the last call;
    /// clears both flags.
    pub fn build_people_repartition(&mut self) -> (r: Option<serialization::PeopleRepartition>)
        requires
            old(self).wf(),
        ensures
            r.is_some() == (old(self).profiles_dirty() || old(self).classes_dirty()),
            !final(self).profiles_dirty(),
            !final(self).classes_dirty(),
            final(self).profiles() == old(self).profiles(),
            final(self).class_seq() == old(self).class_seq(),
            final(self).nicknames() == old(self).nicknames(),
            final(self).nicknames_dirty() == old(self).nicknames_dirty(),
            final(self).last_profil_id() == old(self).last_profil_id(),
            final(self).last_class_id() == old(self).last_class_id(),
            final(self).allocated_on_load() == old(self).allocated_on_load(),
            r.is_some() ==> old(self).roster_of(&r.unwrap()),
            final(self).wf(),
    {
        let profiles_changed = self.id_to_profil.clear_dirty();
        let classes_changed = self.classes.clear_dirty();
        if !profiles_changed && !classes_changed {
            return None;
        }
        let ps = self.id_to_profil.get();
        let mut entries: Vec<(ProfilID, Profil)> = Vec::new();
        let mut i: usize = 0;
        while i < ps.len()
            invariant
                i <= ps@.len(),
                *ps == self.id_to_profil.value(),
                entries@ == self.profiles().take(i as int),
            decreases ps.len() - i,
        {
            entries.push(
                (
                    ps[i].0,
                    Profil { identity: ps[i].1.identity.duplicate(), permissions: ps[i].1.permissions },
                ),
            );
            i += 1;
            assert(entries@ =~= self.profiles().take(i as int));
        }
        assert(self.profiles().take(ps.len() as int) =~= self.profiles());
        sort_by_name(&mut entries);
        proof {
            lemma_sort_by_name(self.profiles());
        }
        let mut profiles: Vec<serialization::Profil> = Vec::new();
        let mut i: usize = 0;
        while i < entries.len()
            invariant
                i <= entries@.len(),
                entries@ == sort_by_name_spec(self.profiles()),
                by_name(entries@),
                profiles@.len() == i,
                forall|j: int|
                    0 <= j < i ==> (#[trigger] profiles@[j]).identity == entries@[j].1.identity
                        && profiles@[j].permissions == entries@[j].1.permissions,
            decreases entries.len() - i,
        {
            profiles.push(
                serialization::Profil {
                    identity: entries[i].1.identity.duplicate(),
                    permissions: entries[i].1.permissions,
                },
            );
            i += 1;
        }
        let cs = self.classes.get();
        let mut classes: Vec<serialization::Class> = Vec::new();
        let mut i: usize = 0;
        while i < cs.len()
            invariant
                i <= cs@.len(),
                *cs == self.classes.value(),
                classes@.len() == i,
                forall|j: int|
                    0 <= j < i ==> (#[trigger] classes@[j]).name@ == self.class_seq()[j].1.name
                        && string_views(classes@[j].people@) == member_entries(
                        self.profiles(),
                        self.class_seq()[j].1.profiles,
                    ).map_values(|e: (ProfilID, Seq<char>)| e.1),
            decreases cs.len() - i,
        {
            let members = self.members_of(&cs[i].1.profiles);
            let mut people: Vec<String> = Vec::new();
            let mut k: usize = 0;
            while k < members.len()
                invariant
                    k <= members@.len(),
                    people@.len() == k,
                    forall|j: int| 0 <= j < k ==> (#[trigger] people@[j])@ == members@[j].1@,
                decreases members.len() - k,
            {
                people.push(members[k].1.clone());
                k += 1;
            }
            proof {
                assert(string_views(people@) =~= pair_views(members@).map_values(
                    |e: (ProfilID, Seq<char>)| e.1,
                ));
            }
            classes.push(serialization::Class { name: cs[i].1.name.clone(), people });
            i += 1;
        }
        proof {
            assert forall|i: int, j: int| 0 <= i < j < profiles@.len() implies name_le(
                profiles@[i].identity.name@,
                profiles@[j].identity.name@,
            ) by {
                assert(name_le(
                    crate::roster_order::entry_name(entries@[i]),
                    crate::roster_order::entry_name(entries@[j]),
                ));
            }
        }
        Some(serialization::PeopleRepartition { profiles, classes })
    }

    /// The ids of the profiles named in `names`, in order; unknown names are skipped.
    fn voter_id_list(&self, names: &Vec<String>) -> (r: Vec<ProfilID>)
        ensures
            r@ == voter_ids(self.profiles(), string_views(names@)),
    {
        let ghost voters = string_views(names@);
        let mut votes: Vec<ProfilID> = Vec::new();
        let mut k: usize = 0;
        while k < names.len()
            invariant
                k <= names@.len(),
                voters == string_views(names@),
                votes@ == voter_ids(self.profiles(), voters.take(k as int)),
            decreases names.len() - k,
        {
            assert(voters.take(k as int + 1).drop_last() =~= voters.take(k as int));
            if let Some(p) = self.find_name(&names[k]) {
                votes.push(self.id_to_profil.get()[p].0);
            }
            k += 1;
        }
        assert(voters.take(names.len() as int) =~= voters);
        votes
    }

    /// `l` merged with the earlier nicknames `olds` of profile `id`.
    fn merge_nicknames(
        &self,
        id: ProfilID,
        l: &Vec<NickNameProposition>,
        olds: &Vec<compat::Nickname>,
    ) -> (r: Vec<NickNameProposition>)
        ensures
            list_view(r@) == merge_all(list_view(l@), self.profiles(), id, olds@),
    {
        let mut r = copy_list(l);
        let mut j: usize = 0;
        while j < olds.len()
            invariant
                j <= olds@.len(),
                list_view(r@) == merge_all(list_view(l@), self.profiles(), id, olds@.take(j as int)),
            decreases olds.len() - j,
        {
            assert(olds@.take(j as int + 1).drop_last() =~= olds@.take(j as int));
            let n = &olds[j];
            let found = find_proposition(&r, &n.nickname);
            proof {
                crate::lemma_first_pos_contains(texts(list_view(r@)), n.nickname@);
            }
            if found.is_none() {
                let ids = self.voter_id_list(&n.votes);
                let votes = free_voter_list(&r, &ids);
                let author = if ids.len() > 0 {
                    ids[0]
                } else {
                    id
                };
                let ghost before = list_view(r@);
                r.push(
                    NickNameProposition {
                        author,
                        proposition: n.nickname.clone(),
                        votes,
                        protected: false,
                    },
                );
                assert(list_view(r@) =~= merge_one(before, self.profiles(), id, *n));
            }
            j += 1;
        }
        assert(olds@.take(olds.len() as int) =~= olds@);
        r
    }

    /// Merges the nicknames of the earlier nickname file into the lists of the
    /// profiles they name; names without a profile are skipped, a text a list
    /// already holds is not added again, and a voter who already votes in a list
    /// gets no second vote there.
    pub fn import_old_nickname(&mut self, group: compat::Group)
        requires
            old(self).wf(),
        ensures
            final(self).nicknames() == import_spec(
                old(self).nicknames(),
                old(self).profiles(),
                group.profiles@,
            ),
            final(self).nicknames_dirty(),
            Self::same_but_nicknames(old(self), final(self)),
            final(self).wf(),
            old(self).ledger_ok() ==> final(self).ledger_ok(),
    {
        let ghost start = *self;
        let ghost ps = self.profiles();
        let _ = self.nick_name_proposition.get_mut();
        let mut i: usize = 0;
        while i < group.profiles.len()
            invariant
                i <= group.profiles@.len(),
                ps == start.profiles(),
                Self::same_but_nicknames(&start, self),
                self.nicknames_dirty(),
                self.nicknames() == import_spec(
                    start.nicknames(),
                    ps,
                    group.profiles@.take(i as int),
                ),
                start.ledger_ok() ==> self.ledger_ok(),
            decreases group.profiles.len() - i,
        {
            let ghost before = *self;
            assert(group.profiles@.take(i as int + 1).drop_last() =~= group.profiles@.take(
                i as int,
            ));
            let olds = &group.profiles[i].1;
            if olds.len() > 0 {
                if let Some(p) = self.find_name(&group.profiles[i].0) {
                    let id = self.id_to_profil.get()[p].0;
                    proof {
                        self.lemma_nicknames_len();
                    }
                    match position_of(self.nick_name_proposition.get(), id) {
                        Some(np) => {
                            let merged = self.merge_nicknames(
                                id,
                                &self.nick_name_proposition.get()[np].1,
                                olds,
                            );
                            let ghost merged_view = list_view(merged@);
                            let ghost old_v = self.nick_name_proposition.value()@;
                            let list = self.nick_name_proposition.get_mut();
                            let (k, _) = list.remove(np);
                            let ghost entry = (k, merged);
                            list.insert(np, (k, merged));
                            proof {
                                lemma_first_pos(keys(old_v), id);
                                assert(old_v[np as int].0 == keys(old_v)[np as int]);
                                assert(self.nick_name_proposition.value()@ =~= old_v.update(
                                    np as int,
                                    entry,
                                ));
                                assert(self.nicknames() =~= before.nicknames().update(
                                    np as int,
                                    (id, merged_view),
                                ));
                                if start.ledger_ok() {
                                    lemma_merge_all_keeps_ledger(
                                        before.nicknames()[np as int].1,
                                        ps,
                                        id,
                                        olds@,
                                    );
                                    Self::lemma_ledger_update(&before, &*self, np as int, merged_view);
                                }
                            }
                        },
                        None => {
                            let empty: Vec<NickNameProposition> = Vec::new();
                            let merged = self.merge_nicknames(id, &empty, olds);
                            let ghost merged_view = list_view(merged@);
                            self.nick_name_proposition.get_mut().push((id, merged));
                            proof {
                                assert(list_view(empty@) =~= Seq::<PropositionView>::empty());
                                assert(self.nicknames() =~= before.nicknames().push(
                                    (id, merged_view),
                                ));
                                if start.ledger_ok() {
                                    assert(ledger_list_ok(Seq::<PropositionView>::empty()));
                                    lemma_merge_all_keeps_ledger(Seq::empty(), ps, id, olds@);
                                    crate::lemma_first_pos_contains(keys(before.nicknames()), id);
                                    crate::lemma_no_dup_push(keys(before.nicknames()), id);
                                    assert(keys(self.nicknames()) =~= keys(before.nicknames()).push(id));
                                    assert forall|k: int| 0 <= k < self.nicknames().len() implies ledger_list_ok(
                                        #[trigger] self.nicknames()[k].1,
                                    ) by {
                                        if k < before.nicknames().len() {
                                            assert(self.nicknames()[k] == before.nicknames()[k]);
                                        }
                                    }
                                }
                            }
                        },
                    }
                }
            }
            i += 1;
        }
        assert(group.profiles@.take(group.profiles.len() as int) =~= group.profiles@);
    }

    /// The names of the classes, in order.
    pub open spec fn class_names(&self) -> Seq<Seq<char>> {
        class_names_in(self.class_seq())
    }

    /// Position of the first class named `name`, -1 when there is none.
    pub open spec fn class_pos(&self, name: Seq<char>) -> int {
        first_pos(self.class_names(), name)
    }

    /// `after` differs from `before` in the profiles at most, which were written.
    pub open spec fn same_but_profiles(before: &DataServer, after: &DataServer) -> bool {
        &&& after.class_seq() == before.class_seq()
        &&& after.nicknames() == before.nicknames()
        &&& after.last_class_id() == before.last_class_id()
        &&& after.allocated_on_load() == before.allocated_on_load()
        &&& after.profiles_dirty()
        &&& after.classes_dirty() == before.classes_dirty()
        &&& after.nicknames_dirty() == before.nicknames_dirty()
    }

    /// `after` differs from `before` in the classes at most, which were written.
    pub open spec fn same_but_classes(before: &DataServer, after: &DataServer) -> bool {
        &&& after.profiles() == before.profiles()
        &&& after.nicknames() == before.nicknames()
        &&& after.last_profil_id() == before.last_profil_id()
        &&& after.allocated_on_load() == before.allocated_on_load()
        &&& after.classes_dirty()
        &&& after.profiles_dirty() == before.profiles_dirty()
        &&& after.nicknames_dirty() == before.nicknames_dirty()
    }

    /// A profile named `name` is added with default permissions under the id after
    /// the last one, unless the name is taken or no id is left.
    pub open spec fn add_profile_outcome(
        before: &DataServer,
        after: &DataServer,
        name: String, password: String,
        r: Result<(), ServerError>,
    ) -> bool {
        &&& (before.name_pos(name@) >= 0 ==> r == Err::<(), ServerError>(
            ServerError::NameAlreadyUsed(name),
        ) && *after == *before)
        &&& (before.name_pos(name@) < 0 && before.last_profil_id() == u32::MAX ==> r == Err::<
            (),
            ServerError,
        >(ServerError::NoFreeId) && *after == *before)
        &&& (before.name_pos(name@) < 0 && before.last_profil_id() < u32::MAX ==> {
            &&& r is Ok
            &&& after.last_profil_id() == before.last_profil_id() + 1
            &&& after.profiles() == before.profiles().push(
                (
                    ProfilID((before.last_profil_id() + 1) as u32),
                    Profil {
                        identity: Identity { name, password },
                        permissions: Permissions::default_permissions(),
                    },
                ),
            )
            &&& Self::same_but_profiles(before, after)
        })
    }

    /// The profile named `name` is deleted: it leaves every class, its own
    /// propositions go and its votes are withdrawn.
    pub open spec fn delete_profil_outcome(
        before: &DataServer,
        after: &DataServer,
        name: String,
        r: Result<(), ServerError>,
    ) -> bool {
        &&& (before.name_pos(name@) < 0 ==> r == Err::<(), ServerError>(
            ServerError::ProfilNotFound(name),
        ) && *after == *before)
        &&& (before.name_pos(name@) >= 0 ==> ({
            let p = before.name_pos(name@);
            let id = before.profiles()[p].0;
            let np = before.nick_pos(id);
            &&& r is Ok
            &&& after.profiles() == before.profiles().remove(p)
            &&& after.class_seq() == leave_all(before.class_seq(), id)
            &&& after.nicknames() == strip_all(
                if np >= 0 {
                    before.nicknames().remove(np)
                } else {
                    before.nicknames()
                },
                id,
            )
            &&& after.last_profil_id() == before.last_profil_id()
            &&& after.last_class_id() == before.last_class_id()
            &&& after.allocated_on_load() == before.allocated_on_load()
            &&& after.profiles_dirty()
            &&& after.classes_dirty()
            &&& after.nicknames_dirty()
        }))
    }

    /// An empty class named `name` is added under the id after the last one, unless
    /// the name is taken or no id is left.
    pub open spec fn add_class_outcome(
        before: &DataServer,
        after: &DataServer,
        name: String,
        r: Result<(), ServerError>,
    ) -> bool {
        &&& (before.class_pos(name@) >= 0 ==> r == Err::<(), ServerError>(
            ServerError::NameAlreadyUsed(name),
        ) && *after == *before)
        &&& (before.class_pos(name@) < 0 && before.last_class_id() == u32::MAX ==> r == Err::<
            (),
            ServerError,
        >(ServerError::NoFreeId) && *after == *before)
        &&& (before.class_pos(name@) < 0 && before.last_class_id() < u32::MAX ==> {
            &&& r is Ok
            &&& after.last_class_id() == before.last_class_id() + 1
            &&& after.class_seq() == before.class_seq().push(
                (
                    ClassID((before.last_class_id() + 1) as u32),
                    ClassView { name: name@, profiles: Seq::empty() },
                ),
            )
            &&& Self::same_but_classes(before, after)
        })
    }

    /// The class named `name` is deleted.
    pub open spec fn delete_class_outcome(
        before: &DataServer,
        after: &DataServer,
        name: String,
        r: Result<(), ServerError>,
    ) -> bool {
        &&& (before.class_pos(name@) < 0 ==> r == Err::<(), ServerError>(
            ServerError::ClassNotFound(name),
        ) && *after == *before)
        &&& (before.class_pos(name@) >= 0 ==> {
            &&& r is Ok
            &&& after.class_seq() == before.class_seq().remove(
                before.class_pos(name@),
            )
            &&& after.last_class_id() == before.last_class_id()
            &&& Self::same_but_classes(before, after)
        })
    }

    /// Profile `id` joins the class named `class_name` unless it is already a member.
    pub open spec fn add_to_class_outcome(
        before: &DataServer,
        after: &DataServer,
        id: ProfilID, class_name: String,
        r: Result<(), ServerError>,
    ) -> bool {
        &&& (before.profil_pos(id) < 0 ==> r == Err::<(), ServerError>(ServerError::IdNotFound(id))
            && *after == *before)
        &&& (before.profil_pos(id) >= 0 && before.class_pos(class_name@) < 0 ==> r == Err::<
            (),
            ServerError,
        >(ServerError::ClassNotFound(class_name)) && *after == *before)
        &&& (before.profil_pos(id) >= 0 && before.class_pos(class_name@) >= 0 ==> ({
            let c = before.class_pos(class_name@);
            let members = before.class_seq()[c].1.profiles;
            &&& r is Ok
            &&& members.contains(id) ==> *after == *before
            &&& !members.contains(id) ==> after.class_seq() == before.class_seq().update(
                c,
                (
                    before.class_seq()[c].0,
                    ClassView { profiles: members.push(id), ..before.class_seq()[c].1 },
                ),
            ) && after.last_class_id() == before.last_class_id()
                && Self::same_but_classes(before, after)
        }))
    }

    /// Profile `id` leaves the class named `class_name`.
    pub open spec fn remove_from_class_outcome(
        before: &DataServer,
        after: &DataServer,
        id: ProfilID, class_name: String,
        r: Result<(), ServerError>,
    ) -> bool {
        &&& (before.class_pos(class_name@) < 0 ==> r == Err::<(), ServerError>(
            ServerError::ClassNotFound(class_name),
        ) && *after == *before)
        &&& (before.class_pos(class_name@) >= 0 ==> ({
            let c = before.class_pos(class_name@);
            &&& r is Ok
            &&& after.class_seq() == before.class_seq().update(
                c,
                (
                    before.class_seq()[c].0,
                    ClassView {
                        profiles: without(before.class_seq()[c].1.profiles, id),
                        ..before.class_seq()[c].1
                    },
                ),
            )
            &&& after.last_class_id() == before.last_class_id()
            &&& Self::same_but_classes(before, after)
        }))
    }

    /// The password of profile `id` becomes `new_password`.
    pub open spec fn change_password_outcome(
        before: &DataServer,
        after: &DataServer,
        id: ProfilID, new_password: String,
        r: Result<(), ServerError>,
    ) -> bool {
        &&& (before.profil_pos(id) < 0 ==> r == Err::<(), ServerError>(ServerError::IdNotFound(id))
            && *after == *before)
        &&& (before.profil_pos(id) >= 0 ==> ({
            let p = before.profil_pos(id);
            let prev = before.profiles()[p].1;
            &&& r is Ok
            &&& after.profiles() == before.profiles().update(
                p,
                (
                    id,
                    Profil {
                        identity: Identity { password: new_password, ..prev.identity },
                        ..prev
                    },
                ),
            )
            &&& after.last_profil_id() == before.last_profil_id()
            &&& Self::same_but_profiles(before, after)
        }))
    }

    /// The profile named `name` is renamed `new_name`, which must be free.
    pub open spec fn change_name_outcome(
        before: &DataServer,
        after: &DataServer,
        name: String, new_name: String,
        r: Result<(), ServerError>,
    ) -> bool {
        &&& (before.name_pos(name@) < 0 ==> r == Err::<(), ServerError>(
            ServerError::ProfilNotFound(name),
        ) && *after == *before)
        &&& (before.name_pos(name@) >= 0 && before.name_pos(new_name@) >= 0 ==> r == Err::<
            (),
            ServerError,
        >(ServerError::NameAlreadyUsed(new_name)) && *after == *before)
        &&& (before.name_pos(name@) >= 0 && before.name_pos(new_name@) < 0 ==> ({
            let p = before.name_pos(name@);
            let prev = before.profiles()[p];
            &&& r is Ok
            &&& after.profiles() == before.profiles().update(
                p,
                (
                    prev.0,
                    Profil {
                        identity: Identity { name: new_name, ..prev.1.identity },
                        ..prev.1
                    },
                ),
            )
            &&& after.last_profil_id() == before.last_profil_id()
            &&& Self::same_but_profiles(before, after)
        }))
    }

    /// The permissions of profile `id` become `permissions`.
    pub open spec fn set_permissions_outcome(
        before: &DataServer,
        after: &DataServer,
        id: ProfilID, permissions: Permissions,
        r: Result<(), ServerError>,
    ) -> bool {
        &&& (before.profil_pos(id) < 0 ==> r == Err::<(), ServerError>(ServerError::IdNotFound(id))
            && *after == *before)
        &&& (before.profil_pos(id) >= 0 ==> ({
            let p = before.profil_pos(id);
            &&& r is Ok
            &&& after.profiles() == before.profiles().update(
                p,
                (id, Profil { permissions, ..before.profiles()[p].1 }),
            )
            &&& after.last_profil_id() == before.last_profil_id()
            &&& Self::same_but_profiles(before, after)
        }))
    }

    /// Position of the first class named `name`.
    fn find_class(&self, name: &String) -> (r: Option<usize>)
        ensures
            opt_pos(r) == self.class_pos(name@),
            r.is_some() ==> r.unwrap() < self.class_seq().len(),
    {
        class_position(self.classes.get(), name)
    }

    /// Replaces the profile at `pos`, keeping its id.
    fn set_profil_at(&mut self, pos: usize, p: Profil)
        requires
            pos < old(self).profiles().len(),
        ensures
            final(self).profiles() == old(self).profiles().update(
                pos as int,
                (old(self).profiles()[pos as int].0, p),
            ),
            final(self).last_profil_id() == old(self).last_profil_id(),
            Self::same_but_profiles(old(self), final(self)),
    {
        let list = self.id_to_profil.get_mut();
        let id = list[pos].0;
        list.set(pos, (id, p));
    }

    /// Replaces the class at `pos`, keeping its id.
    fn set_class_at(&mut self, pos: usize, c: Class)
        requires
            pos < old(self).class_seq().len(),
        ensures
            final(self).class_seq() == old(self).class_seq().update(
                pos as int,
                (old(self).class_seq()[pos as int].0, c@),
            ),
            final(self).last_class_id() == old(self).last_class_id(),
            Self::same_but_classes(old(self), final(self)),
    {
        let ghost before = *self;
        let list = self.classes.get_mut();
        let id = list[pos].0;
        list.set(pos, (id, c));
        proof {
            assert(self.class_seq() =~= before.class_seq().update(
                pos as int,
                (before.class_seq()[pos as int].0, c@),
            ));
        }
    }

    /// Adds a profile with default permissions under the id after the last one.
    pub fn add_profile(&mut self, name: String, password: String) -> (r: Result<(), ServerError>)
        requires
            old(self).wf(),
        ensures
            Self::add_profile_outcome(old(self), final(self), name, password, r),
            final(self).wf(),
    {
        let ghost before = *self;
        let ghost name0 = name;
        let ghost password0 = password;
        if self.find_name(&name).is_some() {
            return Err(ServerError::NameAlreadyUsed(name));
        }
        if self.free_profil_id_beginning == u32::MAX {
            return Err(ServerError::NoFreeId);
        }
        self.free_profil_id_beginning = self.free_profil_id_beginning + 1;
        let id = ProfilID(self.free_profil_id_beginning);
        let permissions = Permissions::new();
        self.id_to_profil.get_mut().push(
            (id, Profil { identity: Identity { name, password }, permissions }),
        );
        proof {
            Self::lemma_wf_add_profile(&before, &*self, name0, password0, Ok(()));
        }
        Ok(())
    }

    /// Deletes the profile named `name`: it leaves every class, its own
    /// propositions go, and its votes are withdrawn. Propositions it authored stay.
    pub fn delete_profil(&mut self, name: String) -> (r: Result<(), ServerError>)
        requires
            old(self).wf(),
        ensures
            Self::delete_profil_outcome(old(self), final(self), name, r),
            final(self).wf(),
            old(self).ledger_ok() ==> final(self).ledger_ok(),
    {
        let ghost before = *self;
        let ghost name0 = name;
        let Some(p) = self.find_name(&name) else {
            return Err(ServerError::ProfilNotFound(name));
        };
        let ghost start = *self;
        let (id, _) = self.id_to_profil.get_mut().remove(p);
        proof {
            lemma_first_pos(start.profil_names(), name@);
        }
        let cs = self.classes.get();
        let mut classes: Vec<(ClassID, Class)> = Vec::new();
        let mut i: usize = 0;
        while i < cs.len()
            invariant
                i <= cs@.len(),
                *cs == self.classes.value(),
                self.class_seq() == start.class_seq(),
                classes@.len() == i,
                forall|j: int|
                    0 <= j < i ==> (#[trigger] classes@[j]).0 == cs@[j].0 && classes@[j].1@ == (ClassView {
                        profiles: without(cs@[j].1@.profiles, id),
                        ..cs@[j].1@
                    }),
            decreases cs.len() - i,
        {
            classes.push(
                (
                    cs[i].0,
                    Class {
                        name: cs[i].1.name.clone(),
                        profiles: remove_voter(&cs[i].1.profiles, id),
                    },
                ),
            );
            i += 1;
        }
        *self.classes.get_mut() = classes;
        proof {
            assert(self.class_seq() =~= leave_all(start.class_seq(), id));
            self.lemma_nicknames_len();
        }
        if let Some(np) = position_of(self.nick_name_proposition.get(), id) {
            self.nick_name_proposition.get_mut().remove(np);
            proof {
                assert(self.nicknames() =~= start.nicknames().remove(np as int));
            }
        }
        let ghost dropped = self.nicknames();
        let ns = self.nick_name_proposition.get();
        let mut nicks: Vec<(ProfilID, Vec<NickNameProposition>)> = Vec::new();
        let mut i: usize = 0;
        while i < ns.len()
            invariant
                i <= ns@.len(),
                *ns == self.nick_name_proposition.value(),
                dropped == self.nicknames(),
                nicks@.len() == i,
                forall|j: int|
                    0 <= j < i ==> (#[trigger] nicks@[j]).0 == ns@[j].0 && list_view(nicks@[j].1@)
                        == strip_voter(list_view(ns@[j].1@), id),
            decreases ns.len() - i,
        {
            nicks.push((ns[i].0, strip_list(&ns[i].1, id)));
            i += 1;
        }
        *self.nick_name_proposition.get_mut() = nicks;
        proof {
            assert(self.nicknames() =~= strip_all(dropped, id));
        }
        proof {
            Self::lemma_wf_delete_profil(&before, &*self, name0, Ok(()));
            if before.ledger_ok() {
                Self::lemma_ledger_delete_profil(&before, &*self, name0, Ok(()));
            }
        }
        Ok(())
    }

    /// Adds an empty class under the id after the last one.
    pub fn add_class(&mut self, name: String) -> (r: Result<(), ServerError>)
        requires
            old(self).wf(),
        ensures
            Self::add_class_outcome(old(self), final(self), name, r),
            final(self).wf(),
    {
        let ghost before = *self;
        let ghost name0 = name;
        if self.find_class(&name).is_some() {
            return Err(ServerError::NameAlreadyUsed(name));
        }
        if self.free_class_id_beginning == u32::MAX {
            return Err(ServerError::NoFreeId);
        }
        let ghost before = *self;
        self.free_class_id_beginning = self.free_class_id_beginning + 1;
        let id = ClassID(self.free_class_id_beginning);
        let ghost nv = name@;
        self.classes.get_mut().push((id, Class { name, profiles: Vec::new() }));
        proof {
            assert(self.class_seq() =~= before.class_seq().push(
                (id, ClassView { name: nv, profiles: Seq::empty() }),
            ));
        }
        proof {
            Self::lemma_wf_add_class(&before, &*self, name0, Ok(()));
        }
        Ok(())
    }

    /// Deletes the class named `name`.
    pub fn delete_class(&mut self, name: String) -> (r: Result<(), ServerError>)
        requires
            old(self).wf(),
        ensures
            Self::delete_class_outcome(old(self), final(self), name, r),
            final(self).wf(),
    {
        let ghost before = *self;
        let ghost name0 = name;
        let Some(p) = self.find_class(&name) else {
            return Err(ServerError::ClassNotFound(name));
        };
        let ghost before = *self;
        self.classes.get_mut().remove(p);
        proof {
            assert(self.class_seq() =~= before.class_seq().remove(p as int));
        }
        proof {
            Self::lemma_wf_delete_class(&before, &*self, name0, Ok(()));
        }
        Ok(())
    }

    /// Puts profile `id` in the class named `class_name`, unless it is already there.
    pub fn add_to_class(&mut self, id: ProfilID, class_name: &String) -> (r: Result<(), ServerError>)
        requires
            old(self).wf(),
        ensures
            Self::add_to_class_outcome(old(self), final(self), id, *class_name, r),
            final(self).wf(),
    {
        let ghost before = *self;
        let ghost cn = *class_name;
        if position_of(self.id_to_profil.get(), id).is_none() {
            return Err(ServerError::IdNotFound(id));
        }
        let Some(c) = self.find_class(class_name) else {
            return Err(ServerError::ClassNotFound(class_name.clone()));
        };
        let class = &self.classes.get()[c].1;
        if contains_id(&class.profiles, id) {
            return Ok(());
        }
        let mut profiles = crate::ledger::copy_ids(&class.profiles);
        profiles.push(id);
        let updated = Class { name: class.name.clone(), profiles };
        self.set_class_at(c, updated);
        proof {
            Self::lemma_wf_add_to_class(&before, &*self, id, cn, Ok(()));
        }
        Ok(())
    }

    /// Takes profile `id` out of the class named `class_name`.
    pub fn remove_from_class(&mut self, id: ProfilID, class_name: String) -> (r: Result<
        (),
        ServerError,
    >)
        requires
            old(self).wf(),
        ensures
            Self::remove_from_class_outcome(old(self), final(self), id, class_name, r),
            final(self).wf(),
    {
        let ghost before = *self;
        let ghost id0 = id;
        let ghost class_name0 = class_name;
        let Some(c) = self.find_class(&class_name) else {
            return Err(ServerError::ClassNotFound(class_name));
        };
        let class = &self.classes.get()[c].1;
        let updated = Class { name: class.name.clone(), profiles: remove_voter(&class.profiles, id) };
        self.set_class_at(c, updated);
        proof {
            Self::lemma_wf_remove_from_class(&before, &*self, id0, class_name0, Ok(()));
        }
        Ok(())
    }

    /// The password of profile `id`.
    pub fn get_password(&self, id: ProfilID) -> (r: Result<String, ServerError>)
        ensures
            r == (if self.profil_pos(id) >= 0 {
                Ok(self.profiles()[self.profil_pos(id)].1.identity.password)
            } else {
                Err(ServerError::IdNotFound(id))
            }),
    {
        match position_of(self.id_to_profil.get(), id) {
            Some(p) => Ok(self.id_to_profil.get()[p].1.identity.password.clone()),
            None => Err(ServerError::IdNotFound(id)),
        }
    }

    /// Replaces the password of profile `id`.
    pub fn change_password(&mut self, id: ProfilID, new_password: String) -> (r: Result<
        (),
        ServerError,
    >)
        requires
            old(self).wf(),
        ensures
            Self::change_password_outcome(old(self), final(self), id, new_password, r),
            final(self).wf(),
    {
        let ghost before = *self;
        let ghost id0 = id;
        let ghost new_password0 = new_password;
        let Some(p) = position_of(self.id_to_profil.get(), id) else {
            return Err(ServerError::IdNotFound(id));
        };
        proof {
            lemma_first_pos(keys(self.profiles()), id);
        }
        let profil = &self.id_to_profil.get()[p].1;
        let updated = Profil {
            identity: Identity { name: profil.identity.name.clone(), password: new_password },
            permissions: profil.permissions,
        };
        self.set_profil_at(p, updated);
        proof {
            Self::lemma_wf_change_password(&before, &*self, id0, new_password0, Ok(()));
        }
        Ok(())
    }

    /// Renames the profile named `name`; the new name must be free.
    pub fn change_name(&mut self, name: String, new_name: String) -> (r: Result<(), ServerError>)
        requires
            old(self).wf(),
        ensures
            Self::change_name_outcome(old(self), final(self), name, new_name, r),
            final(self).wf(),
    {
        let ghost before = *self;
        let ghost name0 = name;
        let ghost new_name0 = new_name;
        let Some(p) = self.find_name(&name) else {
            return Err(ServerError::ProfilNotFound(name));
        };
        if self.find_name(&new_name).is_some() {
            return Err(ServerError::NameAlreadyUsed(new_name));
        }
        let profil = &self.id_to_profil.get()[p].1;
        let updated = Profil {
            identity: Identity { name: new_name, password: profil.identity.password.clone() },
            permissions: profil.permissions,
        };
        self.set_profil_at(p, updated);
        proof {
            Self::lemma_wf_change_name(&before, &*self, name0, new_name0, Ok(()));
        }
        Ok(())
    }

    /// Replaces the permissions of profile `id`.
    pub fn set_permissions(&mut self, id: ProfilID, permissions: Permissions) -> (r: Result<
        (),
        ServerError,
    >)
        requires
            old(self).wf(),
        ensures
            Self::set_permissions_outcome(old(self), final(self), id, permissions, r),
            final(self).wf(),
    {
        let ghost before = *self;
        let ghost id0 = id;
        let ghost permissions0 = permissions;
        let Some(p) = position_of(self.id_to_profil.get(), id) else {
            return Err(ServerError::IdNotFound(id));
        };
        proof {
            lemma_first_pos(keys(self.profiles()), id);
        }
        let profil = &self.id_to_profil.get()[p].1;
        let updated = Profil { identity: profil.identity.duplicate(), permissions };
        self.set_profil_at(p, updated);
        proof {
            Self::lemma_wf_set_permissions(&before, &*self, id0, permissions0, Ok(()));
        }
        Ok(())
    }

    /// Whether some class holds profile `id`.
    pub fn is_in_a_class(&self, id: ProfilID) -> (r: bool)
        ensures
            r == exists|i: int|
                0 <= i < self.class_seq().len() && (#[trigger] self.class_seq()[i]).1.profiles.contains(
                    id,
                ),
    {
        let classes = self.classes.get();
        let mut i: usize = 0;
        while i < classes.len()
            invariant
                i <= classes@.len(),
                *classes == self.classes.value(),
                forall|j: int|
                    0 <= j < i ==> !(#[trigger] self.class_seq()[j]).1.profiles.contains(id),
            decreases classes.len() - i,
        {
            if contains_id(&classes[i].1.profiles, id) {
                assert(self.class_seq()[i as int].1.profiles.contains(id));
                return true;
            }
            i += 1;
        }
        false
    }

    /// The profiles that no class holds, with their names, in order.
    pub fn find_people_out_of_any_class(&self) -> (r: Vec<(ProfilID, String)>)
        ensures
            pair_views(r@) == lonely(self.profiles(), self.class_seq()),
    {
        let ps = self.id_to_profil.get();
        let mut r: Vec<(ProfilID, String)> = Vec::new();
        let mut i: usize = 0;
        while i < ps.len()
            invariant
                i <= ps@.len(),
                *ps == self.id_to_profil.value(),
                pair_views(r@) == lonely(self.profiles().take(i as int), self.class_seq()),
            decreases ps.len() - i,
        {
            assert(self.profiles().take(i as int + 1).drop_last() =~= self.profiles().take(i as int));
            if !self.is_in_a_class(ps[i].0) {
                let ghost before = r@;
                r.push((ps[i].0, ps[i].1.identity.name.clone()));
                assert(pair_views(r@) =~= pair_views(before).push(
                    (ps@[i as int].0, ps@[i as int].1.identity.name@),
                ));
            }
            i += 1;
        }
        assert(self.profiles().take(ps.len() as int) =~= self.profiles());
        r
    }

    /// The ids of the profiles that no class holds go, in order and each once, to
    /// the end of the members of the class named `class`.
    pub open spec fn lonely_outcome(
        before: &DataServer,
        after: &DataServer,
        class: String,
        r: Result<(), ServerError>,
    ) -> bool {
        let ids = lonely(before.profiles(), before.class_seq()).map_values(
            |e: (ProfilID, Seq<char>)| e.0,
        );
        let c = before.class_pos(class@);
        if ids.len() == 0 {
            r is Ok && *after == *before
        } else if c < 0 {
            r == Err::<(), ServerError>(ServerError::ClassNotFound(class)) && *after == *before
        } else {
            &&& r is Ok
            &&& after.class_seq() == before.class_seq().update(
                c,
                (
                    before.class_seq()[c].0,
                    ClassView {
                        profiles: join_all(before.class_seq()[c].1.profiles, ids),
                        ..before.class_seq()[c].1
                    },
                ),
            )
            &&& after.last_class_id() == before.last_class_id()
            &&& Self::same_but_classes(before, after)
        }
    }

    /// Puts every profile that no class holds in the class named `class`.
    pub fn add_lonely_to_class(&mut self, class: &String) -> (r: Result<(), ServerError>)
        requires
            old(self).wf(),
        ensures
            Self::lonely_outcome(old(self), final(self), *class, r),
            final(self).wf(),
    {
        let ghost before = *self;
        let ghost cn = *class;
        let people = self.find_people_out_of_any_class();
        let ghost ids = pair_views(people@).map_values(|e: (ProfilID, Seq<char>)| e.0);
        if people.len() == 0 {
            return Ok(());
        }
        let Some(c) = self.find_class(class) else {
            return Err(ServerError::ClassNotFound(class.clone()));
        };
        let current = &self.classes.get()[c].1;
        let mut profiles = crate::ledger::copy_ids(&current.profiles);
        let ghost members = current.profiles@;
        let mut i: usize = 0;
        while i < people.len()
            invariant
                i <= people@.len(),
                ids == pair_views(people@).map_values(|e: (ProfilID, Seq<char>)| e.0),
                profiles@ == join_all(members, ids.take(i as int)),
            decreases people.len() - i,
        {
            assert(ids.take(i as int + 1).drop_last() =~= ids.take(i as int));
            assert(ids[i as int] == people@[i as int].0);
            if !contains_id(&profiles, people[i].0) {
                profiles.push(people[i].0);
            }
            i += 1;
        }
        assert(ids.take(people.len() as int) =~= ids);
        let updated = Class { name: current.name.clone(), profiles };
        self.set_class_at(c, updated);
        proof {
            Self::lemma_wf_lonely(&before, &*self, cn, Ok(()));
        }
        Ok(())
    }

    /// Whether a vote of `voter` for `text` on `target` changes anything.
    pub open spec fn vote_applies(&self, voter: ProfilID, target: ProfilID, text: Seq<char>) -> bool {
        self.rights(voter, target).0 && text.len() > 0 && (self.nick_pos(target) >= 0
            || self.profil_pos(target) >= 0)
    }

    /// The propositions of the target after a vote are the vote applied to its
    /// propositions before, when the vote applies; otherwise they are unchanged.
    pub proof fn lemma_vote_list(
        before: &DataServer,
        after: &DataServer,
        voter: ProfilID,
        target: ProfilID,
        text: Seq<char>,
    )
        requires
            Self::vote_outcome(before, after, voter, target, text),
        ensures
            after.nick_list(target) == if before.vote_applies(voter, target, text) {
                vote_spec(before.nick_list(target), voter, text)
            } else {
                before.nick_list(target)
            },
    {
        if before.vote_applies(voter, target, text) {
            let kb = keys(before.nicknames());
            let ka = keys(after.nicknames());
            let np = before.nick_pos(target);
            if np >= 0 {
                lemma_first_pos(kb, target);
                assert(ka =~= kb);
            } else {
                assert(ka.drop_last() =~= kb);
            }
        }
    }

    /// After a vote the voter stands in the votes of at most one proposition of the
    /// target, when the texts of the target's propositions are distinct and the
    /// voter stood in at most one of them before.
    pub proof fn lemma_store_single_ballot(
        before: &DataServer,
        after: &DataServer,
        voter: ProfilID,
        target: ProfilID,
        text: Seq<char>,
        i: int,
        j: int,
    )
        requires
            Self::vote_outcome(before, after, voter, target, text),
            unique_texts(before.nick_list(target)),
            forall|a: int, b: int|
                0 <= a < before.nick_list(target).len() && 0 <= b < before.nick_list(target).len()
                    && (#[trigger] before.nick_list(target)[a]).votes.contains(voter)
                    && (#[trigger] before.nick_list(target)[b]).votes.contains(voter) ==> a == b,
            0 <= i < after.nick_list(target).len(),
            0 <= j < after.nick_list(target).len(),
            after.nick_list(target)[i].votes.contains(voter),
            after.nick_list(target)[j].votes.contains(voter),
        ensures
            i == j,
    {
        Self::lemma_vote_list(before, after, voter, target, text);
        if before.vote_applies(voter, target, text) {
            lemma_vote_single_ballot(before.nick_list(target), voter, text, i, j);
        }
    }

    /// Voting for a text that the target already has adds no proposition, and adds
    /// at most one vote to that proposition; none when the voter was already among
    /// its votes.
    pub proof fn lemma_store_vote_existing_text(
        before: &DataServer,
        after: &DataServer,
        voter: ProfilID,
        target: ProfilID,
        text: Seq<char>,
        i: int,
    )
        requires
            Self::vote_outcome(before, after, voter, target, text),
            0 <= i < before.nick_list(target).len(),
            before.nick_list(target)[i].text == text,
        ensures
            after.nick_list(target).len() == before.nick_list(target).len(),
            after.nick_list(target)[i].text == text,
            after.nick_list(target)[i].votes.len() <= before.nick_list(target)[i].votes.len() + 1,
            before.nick_list(target)[i].votes.contains(voter) ==> after.nick_list(
                target,
            )[i].votes.len() <= before.nick_list(target)[i].votes.len(),
    {
        Self::lemma_vote_list(before, after, voter, target, text);
        if before.vote_applies(voter, target, text) {
            lemma_vote_existing_text(before.nick_list(target), voter, text, i);
        }
    }

    /// A delete leaves everything unchanged when the proposition it names is
    /// protected and the deleter may not bypass protection on the target.
    pub proof fn lemma_delete_keeps_protected(
        before: &DataServer,
        after: &DataServer,
        deleter: ProfilID,
        target: ProfilID,
        text: Seq<char>,
    )
        requires
            Self::delete_outcome(before, after, deleter, target, text),
            first_pos(texts(before.nick_list(target)), text) >= 0,
            before.nick_list(target)[first_pos(texts(before.nick_list(target)), text)].protected,
            !before.rights(deleter, target).2,
        ensures
            *after == *before,
    {
    }

    /// The store is well formed: profile ids and names are distinct and at most the
    /// last profile id; class ids and names are distinct and at most the last class
    /// id; the members of each class are distinct ids of profiles.
    pub open spec fn wf(&self) -> bool {
        &&& keys(self.profiles()).no_duplicates()
        &&& self.profil_names().no_duplicates()
        &&& forall|i: int|
            0 <= i < self.profiles().len() ==> (#[trigger] self.profiles()[i]).0.0
                <= self.last_profil_id()
        &&& keys(self.class_seq()).no_duplicates()
        &&& self.class_names().no_duplicates()
        &&& forall|c: int|
            0 <= c < self.class_seq().len() ==> (#[trigger] self.class_seq()[c]).0.0
                <= self.last_class_id()
        &&& forall|c: int|
            0 <= c < self.class_seq().len() ==> (#[trigger] self.class_seq()[c]).1.profiles.no_duplicates()
        &&& forall|c: int, k: int|
            0 <= c < self.class_seq().len() && 0 <= k < self.class_seq()[c].1.profiles.len()
                ==> keys(self.profiles()).contains(#[trigger] self.class_seq()[c].1.profiles[k])
    }

    /// Saving a well-formed store to its three documents and loading them back gives
    /// the same profiles, now sorted by name, the same classes and the same
    /// propositions, with no id allocated.
    pub proof fn lemma_round_trip(
        s: &DataServer,
        roster: &serialization::PeopleRepartition,
        map: &serialization::IdMap,
        saved: Seq<(ProfilID, Vec<NickNameProposition>)>,
        loaded: &DataServer,
        t: &DataServer,
    )
        requires
            s.wf(),
            s.roster_of(roster),
            s.id_map_of(map),
            nick_entries_view(saved) == s.nicknames(),
            loaded.loaded_from(roster, map),
            Self::same_but_nicknames(loaded, t),
            t.nicknames() == nick_entries_view(saved),
        ensures
            t.profiles() == sort_by_name_spec(s.profiles()),
            t.profiles().to_multiset() == s.profiles().to_multiset(),
            t.class_seq() == s.class_seq(),
            t.nicknames() == s.nicknames(),
            !t.allocated_on_load(),
    {
        let ps = s.profiles();
        let srt = sort_by_name_spec(ps);
        lemma_sort_by_name(ps);
        assert(ps.no_duplicates()) by {
            assert forall|a: int, b: int| 0 <= a < ps.len() && 0 <= b < ps.len() && a != b implies ps[a] != ps[b] by {
                assert(keys(ps)[a] == ps[a].0 && keys(ps)[b] == ps[b].0);
            }
        }
        let pk = profil_known(map.profil_mapping@);
        let m = max_id(pk);
        let names = roster_names(roster.profiles@);
        assert(names_of(pk) =~= names_in(ps)) by {
            assert forall|i: int| 0 <= i < ps.len() implies names_of(pk)[i] == names_in(ps)[i] by {
                assert(map.profil_mapping@[i].1 == ps[i].1.identity.name);
            }
        }
        // Every roster entry is one of the store's profiles.
        assert forall|i: int| 0 <= i < srt.len() implies ps.contains(#[trigger] srt[i]) by {
            assert(srt.contains(srt[i]));
        }
        assert forall|i: int| 0 <= i < names.len() implies names_of(pk).contains(#[trigger] names[i])
            && names[i] == srt[i].1.identity.name@ by {
            assert(roster.profiles@[i].identity == srt[i].1.identity);
            assert(ps.contains(srt[i]));
            let q = choose|q: int| 0 <= q < ps.len() && ps[q] == srt[i];
            assert(names_in(ps)[q] == names[i]);
        }
        assert(names_in(srt).no_duplicates()) by {
            assert forall|a: int, b: int| 0 <= a < srt.len() && 0 <= b < srt.len() && a != b implies names_in(srt)[a] != names_in(srt)[b] by {
                assert(ps.contains(srt[a]) && ps.contains(srt[b]));
                let qa = choose|q: int| 0 <= q < ps.len() && ps[q] == srt[a];
                let qb = choose|q: int| 0 <= q < ps.len() && ps[q] == srt[b];
                assert(names_in(ps)[qa] == names_in(srt)[a]);
                assert(names_in(ps)[qb] == names_in(srt)[b]);
            }
        }
        assert(keys(srt).no_duplicates()) by {
            assert forall|a: int, b: int| 0 <= a < srt.len() && 0 <= b < srt.len() && a != b implies keys(srt)[a] != keys(srt)[b] by {
                assert(ps.contains(srt[a]) && ps.contains(srt[b]));
                let qa = choose|q: int| 0 <= q < ps.len() && ps[q] == srt[a];
                let qb = choose|q: int| 0 <= q < ps.len() && ps[q] == srt[b];
                assert(keys(ps)[qa] == keys(srt)[a]);
                assert(keys(ps)[qb] == keys(srt)[b]);
                assert(names_in(srt)[a] != names_in(srt)[b]);
            }
        }
        assert(names.no_duplicates()) by {
            assert forall|a: int, b: int| 0 <= a < names.len() && 0 <= b < names.len() && a != b implies names[a] != names[b] by {
                assert(names[a] == names_in(srt)[a] && names[b] == names_in(srt)[b]);
            }
        }
        lemma_unseen_zero(pk, names);
        crate::reconcile::lemma_max_id(pk);
        lemma_assign_fresh(pk, m, names);
        let pids = assign(pk, m, names).2;
        assert forall|i: int| 0 <= i < srt.len() implies (#[trigger] srt[i]).0.0 == pids[i]
            && roster.profiles@[i].identity == srt[i].1.identity && roster.profiles@[i].permissions
            == srt[i].1.permissions by {
            let q = choose|q: int| 0 <= q < ps.len() && ps[q] == srt[i];
            assert(names_in(ps)[q] == names[i]);
            lemma_first_pos_distinct(names_in(ps), q);
            assert(map.profil_mapping@[q].0 == ps[q].0);
        }
        lemma_load_all(roster.profiles@, pids, srt, srt.len() as int);
        assert(roster.profiles@.take(srt.len() as int) =~= roster.profiles@);
        assert(pids.take(srt.len() as int) =~= pids);
        assert(srt.take(srt.len() as int) =~= srt);
        let cs = s.class_seq();
        let ck = class_known(map.class_mapping@);
        let cnames = roster_class_names(roster.classes@);
        assert(cnames =~= s.class_names()) by {
            assert forall|i: int| 0 <= i < cs.len() implies cnames[i] == s.class_names()[i] by {
                assert(roster.classes@[i].name@ == cs[i].1.name);
            }
        }
        assert(names_of(ck) =~= cnames) by {
            assert forall|i: int| 0 <= i < cs.len() implies names_of(ck)[i] == cnames[i] by {
                assert(map.class_mapping@[i].1@ == cs[i].1.name);
                assert(roster.classes@[i].name@ == cs[i].1.name);
            }
        }
        lemma_assign_known(ck, max_id(ck), cnames, cnames.len() as int);
        assert(cnames.take(cnames.len() as int) =~= cnames);
        let cids = ck.map_values(|e: (Seq<char>, u32)| e.1);
        assert(cids.take(cnames.len() as int) =~= cids);
        assert forall|i: int| 0 <= i < cs.len() implies (#[trigger] cs[i]).0.0 == cids[i]
            && roster.classes@[i].name@ == cs[i].1.name && resolve_live(
            srt,
            string_views(roster.classes@[i].people@),
        ) == cs[i].1.profiles by {
            assert(map.class_mapping@[i].0 == cs[i].0);
            let members = cs[i].1.profiles;
            assert forall|k: int| 0 <= k < members.len() implies keys(ps).contains(
                #[trigger] members[k],
            ) by {
                assert(keys(s.profiles()).contains(s.class_seq()[i].1.profiles[k]));
            }
            assert(members.no_duplicates());
            lemma_resolve_members(ps, srt, members);
        }
        lemma_load_classes_all(srt, roster.classes@, cids, cs, cs.len() as int);
        assert(roster.classes@.take(cs.len() as int) =~= roster.classes@);
        assert(cs.take(cs.len() as int) =~= cs);
    }

    /// How `requester` sees each proposition of `target`, in stored order.
    pub open spec fn statuts(&self, requester: Option<ProfilID>, target: ProfilID) -> Seq<StatutView> {
        self.nick_list(target).map_values(
            |p: PropositionView| self.statut_spec(requester, target, p),
        )
    }

    /// The propositions of `asked_profil` as `requester` sees them, by decreasing
    /// number of votes; propositions with as many votes keep their stored order.
    pub fn personne_profil(&self, requester: Option<ProfilID>, asked_profil: ProfilID) -> (r:
        packets::Profile)
        ensures
            r.profil_id == asked_profil,
            r.allowed_to_vote == self.opt_rights(requester, asked_profil).0,
            statut_views(r.nicknames@) == sort_by_votes_spec(self.statuts(requester, asked_profil)),
    {
        let mut p = self.stored_projection(requester, asked_profil);
        proof {
            assert(statut_views(p.nicknames@) =~= self.statuts(requester, asked_profil));
        }
        sort_by_votes(&mut p.nicknames);
        p
    }

    /// Replacing the members of one class by distinct ids of profiles keeps the
    /// store well formed.
    pub proof fn lemma_wf_class_update(
        before: &DataServer,
        after: &DataServer,
        c: int,
        members: Seq<ProfilID>,
    )
        requires
            before.wf(),
            0 <= c < before.class_seq().len(),
            after.profiles() == before.profiles(),
            after.last_profil_id() == before.last_profil_id(),
            after.last_class_id() == before.last_class_id(),
            after.class_seq() == before.class_seq().update(
                c,
                (
                    before.class_seq()[c].0,
                    ClassView { profiles: members, ..before.class_seq()[c].1 },
                ),
            ),
            members.no_duplicates(),
            forall|k: int| 0 <= k < members.len() ==> keys(before.profiles()).contains(#[trigger] members[k]),
        ensures
            after.wf(),
    {
        assert(keys(after.class_seq()) =~= keys(before.class_seq()));
        assert(after.class_names() =~= before.class_names());
        assert forall|d: int| 0 <= d < after.class_seq().len() implies (#[trigger] after.class_seq()[d]).0.0
            <= after.last_class_id() by {
            assert(after.class_seq()[d].0 == before.class_seq()[d].0);
        }
        assert forall|d: int| 0 <= d < after.class_seq().len() implies (#[trigger] after.class_seq()[d]).1.profiles.no_duplicates() by {
            if d != c {
                assert(after.class_seq()[d] == before.class_seq()[d]);
            }
        }
        assert forall|d: int, k: int|
            0 <= d < after.class_seq().len() && 0 <= k < after.class_seq()[d].1.profiles.len()
            implies keys(after.profiles()).contains(#[trigger] after.class_seq()[d].1.profiles[k]) by {
            if d != c {
                assert(after.class_seq()[d] == before.class_seq()[d]);
                assert(keys(before.profiles()).contains(before.class_seq()[d].1.profiles[k]));
            }
        }
    }

    /// Changing profiles without changing their ids, while their names stay
    /// distinct, keeps the store well formed.
    pub proof fn lemma_wf_same_keys(before: &DataServer, after: &DataServer)
        requires
            before.wf(),
            keys(after.profiles()) == keys(before.profiles()),
            after.profil_names().no_duplicates(),
            after.class_seq() == before.class_seq(),
            after.last_profil_id() == before.last_profil_id(),
            after.last_class_id() == before.last_class_id(),
        ensures
            after.wf(),
    {
        assert(after.profiles().len() == keys(after.profiles()).len());
        assert(before.profiles().len() == keys(before.profiles()).len());
        assert forall|i: int| 0 <= i < after.profiles().len() implies (#[trigger] after.profiles()[i]).0.0
            <= after.last_profil_id() by {
            assert(keys(after.profiles())[i] == after.profiles()[i].0);
            assert(keys(before.profiles())[i] == before.profiles()[i].0);
            assert(before.profiles()[i].0.0 <= before.last_profil_id());
        }
        assert forall|d: int, k: int|
            0 <= d < after.class_seq().len() && 0 <= k < after.class_seq()[d].1.profiles.len()
            implies keys(after.profiles()).contains(#[trigger] after.class_seq()[d].1.profiles[k]) by {
            assert(keys(before.profiles()).contains(before.class_seq()[d].1.profiles[k]));
        }
    }

    /// Adding a profile keeps the store well formed.
    pub proof fn lemma_wf_add_profile(
        before: &DataServer,
        after: &DataServer,
        name: String,
        password: String,
        r: Result<(), ServerError>,
    )
        requires
            before.wf(),
            Self::add_profile_outcome(before, after, name, password, r),
        ensures
            after.wf(),
    {
        if before.name_pos(name@) < 0 && before.last_profil_id() < u32::MAX {
            let id = ProfilID((before.last_profil_id() + 1) as u32);
            let ks = keys(before.profiles());
            assert(!ks.contains(id)) by {
                if ks.contains(id) {
                    let w = choose|w: int| 0 <= w < ks.len() && ks[w] == id;
                    assert(before.profiles()[w].0.0 <= before.last_profil_id());
                }
            }
            crate::lemma_no_dup_push(ks, id);
            assert(keys(after.profiles()) =~= ks.push(id));
            crate::lemma_first_pos_contains(before.profil_names(), name@);
            crate::lemma_no_dup_push(before.profil_names(), name@);
            assert(after.profil_names() =~= before.profil_names().push(name@));
            assert forall|i: int| 0 <= i < after.profiles().len() implies (#[trigger] after.profiles()[i]).0.0
                <= after.last_profil_id() by {
                if i < before.profiles().len() {
                    assert(after.profiles()[i] == before.profiles()[i]);
                }
            }
            assert forall|d: int, k: int|
                0 <= d < after.class_seq().len() && 0 <= k < after.class_seq()[d].1.profiles.len()
                implies keys(after.profiles()).contains(#[trigger] after.class_seq()[d].1.profiles[k]) by {
                assert(keys(before.profiles()).contains(before.class_seq()[d].1.profiles[k]));
            }
        }
    }

    /// Deleting a profile keeps the store well formed.
    pub proof fn lemma_wf_delete_profil(
        before: &DataServer,
        after: &DataServer,
        name: String,
        r: Result<(), ServerError>,
    )
        requires
            before.wf(),
            Self::delete_profil_outcome(before, after, name, r),
        ensures
            after.wf(),
    {
        if before.name_pos(name@) >= 0 {
            let p = before.name_pos(name@);
            lemma_first_pos(before.profil_names(), name@);
            let id = before.profiles()[p].0;
            let ks = keys(before.profiles());
            crate::lemma_no_dup_remove(ks, p);
            crate::lemma_no_dup_remove(before.profil_names(), p);
            assert(keys(after.profiles()) =~= ks.remove(p));
            assert(after.profil_names() =~= before.profil_names().remove(p));
            assert(ks[p] == id);
            assert(keys(after.class_seq()) =~= keys(before.class_seq()));
            assert(after.class_names() =~= before.class_names());
            assert(after.class_seq().len() == before.class_seq().len());
            assert forall|i: int| 0 <= i < after.profiles().len() implies (#[trigger] after.profiles()[i]).0.0
                <= after.last_profil_id() by {
                if i < p {
                    assert(after.profiles()[i] == before.profiles()[i]);
                } else {
                    assert(after.profiles()[i] == before.profiles()[i + 1]);
                }
            }
            assert forall|d: int| 0 <= d < after.class_seq().len() implies (#[trigger] after.class_seq()[d]).0.0
                <= after.last_class_id() by {
                assert(after.class_seq()[d].0 == before.class_seq()[d].0);
            }
            assert forall|d: int| 0 <= d < after.class_seq().len() implies (#[trigger] after.class_seq()[d]).1.profiles.no_duplicates() by {
                lemma_without_no_dup(before.class_seq()[d].1.profiles, id);
            }
            assert forall|d: int, k: int|
                0 <= d < after.class_seq().len() && 0 <= k < after.class_seq()[d].1.profiles.len()
                implies keys(after.profiles()).contains(#[trigger] after.class_seq()[d].1.profiles[k]) by {
                let old_m = before.class_seq()[d].1.profiles;
                assert(after.class_seq()[d].1.profiles == without(old_m, id));
                let m = after.class_seq()[d].1.profiles[k];
                lemma_without(old_m, id);
                assert(without(old_m, id).contains(m));
                assert(m != id);
                assert(old_m.contains(m));
                let w = choose|w: int| 0 <= w < old_m.len() && old_m[w] == m;
                assert(keys(before.profiles()).contains(before.class_seq()[d].1.profiles[w]));
            }
        }
    }

    /// Adding a class keeps the store well formed.
    pub proof fn lemma_wf_add_class(
        before: &DataServer,
        after: &DataServer,
        name: String,
        r: Result<(), ServerError>,
    )
        requires
            before.wf(),
            Self::add_class_outcome(before, after, name, r),
        ensures
            after.wf(),
    {
        if before.class_pos(name@) < 0 && before.last_class_id() < u32::MAX {
            let id = ClassID((before.last_class_id() + 1) as u32);
            let ks = keys(before.class_seq());
            assert(!ks.contains(id)) by {
                if ks.contains(id) {
                    let w = choose|w: int| 0 <= w < ks.len() && ks[w] == id;
                    assert(before.class_seq()[w].0.0 <= before.last_class_id());
                }
            }
            crate::lemma_no_dup_push(ks, id);
            assert(keys(after.class_seq()) =~= ks.push(id));
            crate::lemma_first_pos_contains(before.class_names(), name@);
            crate::lemma_no_dup_push(before.class_names(), name@);
            assert(after.class_names() =~= before.class_names().push(name@));
            assert forall|d: int| 0 <= d < after.class_seq().len() implies (#[trigger] after.class_seq()[d]).0.0
                <= after.last_class_id() && after.class_seq()[d].1.profiles.no_duplicates() by {
                if d < before.class_seq().len() {
                    assert(after.class_seq()[d] == before.class_seq()[d]);
                }
            }
            assert forall|d: int, k: int|
                0 <= d < after.class_seq().len() && 0 <= k < after.class_seq()[d].1.profiles.len()
                implies keys(after.profiles()).contains(#[trigger] after.class_seq()[d].1.profiles[k]) by {
                if d < before.class_seq().len() {
                    assert(after.class_seq()[d] == before.class_seq()[d]);
                    assert(keys(before.profiles()).contains(before.class_seq()[d].1.profiles[k]));
                }
            }
        }
    }

    /// Deleting a class keeps the store well formed.
    pub proof fn lemma_wf_delete_class(
        before: &DataServer,
        after: &DataServer,
        name: String,
        r: Result<(), ServerError>,
    )
        requires
            before.wf(),
            Self::delete_class_outcome(before, after, name, r),
        ensures
            after.wf(),
    {
        if before.class_pos(name@) >= 0 {
            let c = before.class_pos(name@);
            lemma_first_pos(before.class_names(), name@);
            crate::lemma_no_dup_remove(keys(before.class_seq()), c);
            crate::lemma_no_dup_remove(before.class_names(), c);
            assert(keys(after.class_seq()) =~= keys(before.class_seq()).remove(c));
            assert(after.class_names() =~= before.class_names().remove(c));
            assert forall|d: int| 0 <= d < after.class_seq().len() implies (#[trigger] after.class_seq()[d]).0.0
                <= after.last_class_id() && after.class_seq()[d].1.profiles.no_duplicates() by {
                if d < c {
                    assert(after.class_seq()[d] == before.class_seq()[d]);
                } else {
                    assert(after.class_seq()[d] == before.class_seq()[d + 1]);
                }
            }
            assert forall|d: int, k: int|
                0 <= d < after.class_seq().len() && 0 <= k < after.class_seq()[d].1.profiles.len()
                implies keys(after.profiles()).contains(#[trigger] after.class_seq()[d].1.profiles[k]) by {
                let d2 = if d < c { d } else { d + 1 };
                assert(after.class_seq()[d] == before.class_seq()[d2]);
                assert(keys(before.profiles()).contains(before.class_seq()[d2].1.profiles[k]));
            }
        }
    }

    /// Putting a profile in a class keeps the store well formed.
    pub proof fn lemma_wf_add_to_class(
        before: &DataServer,
        after: &DataServer,
        id: ProfilID,
        class_name: String,
        r: Result<(), ServerError>,
    )
        requires
            before.wf(),
            Self::add_to_class_outcome(before, after, id, class_name, r),
        ensures
            after.wf(),
    {
        if before.profil_pos(id) >= 0 && before.class_pos(class_name@) >= 0 {
            let c = before.class_pos(class_name@);
            lemma_first_pos(before.class_names(), class_name@);
            let members = before.class_seq()[c].1.profiles;
            if !members.contains(id) {
                crate::lemma_first_pos_contains(keys(before.profiles()), id);
                crate::lemma_no_dup_push(members, id);
                assert forall|k: int| 0 <= k < members.push(id).len() implies keys(before.profiles()).contains(
                    #[trigger] members.push(id)[k],
                ) by {
                    if k < members.len() {
                        assert(members.push(id)[k] == members[k]);
                        assert(keys(before.profiles()).contains(before.class_seq()[c].1.profiles[k]));
                    }
                }
                Self::lemma_wf_class_update(before, after, c, members.push(id));
            }
        }
    }

    /// Taking a profile out of a class keeps the store well formed.
    pub proof fn lemma_wf_remove_from_class(
        before: &DataServer,
        after: &DataServer,
        id: ProfilID,
        class_name: String,
        r: Result<(), ServerError>,
    )
        requires
            before.wf(),
            Self::remove_from_class_outcome(before, after, id, class_name, r),
        ensures
            after.wf(),
    {
        if before.class_pos(class_name@) >= 0 {
            let c = before.class_pos(class_name@);
            lemma_first_pos(before.class_names(), class_name@);
            let members = before.class_seq()[c].1.profiles;
            lemma_without_no_dup(members, id);
            lemma_without(members, id);
            assert forall|k: int| 0 <= k < without(members, id).len() implies keys(before.profiles()).contains(
                #[trigger] without(members, id)[k],
            ) by {
                let m = without(members, id)[k];
                assert(without(members, id).contains(m));
                assert(m != id);
                assert(members.contains(m));
                let w = choose|w: int| 0 <= w < members.len() && members[w] == m;
                assert(keys(before.profiles()).contains(before.class_seq()[c].1.profiles[w]));
            }
            Self::lemma_wf_class_update(before, after, c, without(members, id));
        }
    }

    /// Changing a password keeps the store well formed.
    pub proof fn lemma_wf_change_password(
        before: &DataServer,
        after: &DataServer,
        id: ProfilID,
        new_password: String,
        r: Result<(), ServerError>,
    )
        requires
            before.wf(),
            Self::change_password_outcome(before, after, id, new_password, r),
        ensures
            after.wf(),
    {
        if before.profil_pos(id) >= 0 {
            let p = before.profil_pos(id);
            lemma_first_pos(keys(before.profiles()), id);
            assert(keys(after.profiles()) =~= keys(before.profiles()));
            assert(after.profil_names() =~= before.profil_names());
            Self::lemma_wf_same_keys(before, after);
        }
    }

    /// Changing permissions keeps the store well formed.
    pub proof fn lemma_wf_set_permissions(
        before: &DataServer,
        after: &DataServer,
        id: ProfilID,
        permissions: Permissions,
        r: Result<(), ServerError>,
    )
        requires
            before.wf(),
            Self::set_permissions_outcome(before, after, id, permissions, r),
        ensures
            after.wf(),
    {
        if before.profil_pos(id) >= 0 {
            lemma_first_pos(keys(before.profiles()), id);
            assert(keys(after.profiles()) =~= keys(before.profiles()));
            assert(after.profil_names() =~= before.profil_names());
            Self::lemma_wf_same_keys(before, after);
        }
    }

    /// Renaming a profile keeps the store well formed.
    pub proof fn lemma_wf_change_name(
        before: &DataServer,
        after: &DataServer,
        name: String,
        new_name: String,
        r: Result<(), ServerError>,
    )
        requires
            before.wf(),
            Self::change_name_outcome(before, after, name, new_name, r),
        ensures
            after.wf(),
    {
        if before.name_pos(name@) >= 0 && before.name_pos(new_name@) < 0 {
            let p = before.name_pos(name@);
            lemma_first_pos(before.profil_names(), name@);
            assert(keys(after.profiles()) =~= keys(before.profiles()));
            assert(after.profil_names() =~= before.profil_names().update(p, new_name@));
            crate::lemma_first_pos_contains(before.profil_names(), new_name@);
            crate::lemma_no_dup_update(before.profil_names(), p, new_name@);
            Self::lemma_wf_same_keys(before, after);
        }
    }

    /// Putting the profiles without a class in a class keeps the store well formed.
    pub proof fn lemma_wf_lonely(
        before: &DataServer,
        after: &DataServer,
        class: String,
        r: Result<(), ServerError>,
    )
        requires
            before.wf(),
            Self::lonely_outcome(before, after, class, r),
        ensures
            after.wf(),
    {
        let ids = lonely(before.profiles(), before.class_seq()).map_values(
            |e: (ProfilID, Seq<char>)| e.0,
        );
        let c = before.class_pos(class@);
        if ids.len() > 0 && c >= 0 {
            lemma_first_pos(before.class_names(), class@);
            let ks = keys(before.profiles());
            lemma_lonely_keys(before.profiles(), before.class_seq());
            let members = before.class_seq()[c].1.profiles;
            assert forall|k: int| 0 <= k < ids.len() implies ks.contains(#[trigger] ids[k]) by {
                assert(ids[k] == lonely(before.profiles(), before.class_seq())[k].0);
            }
            assert forall|k: int| 0 <= k < members.len() implies ks.contains(#[trigger] members[k]) by {
                assert(ks.contains(before.class_seq()[c].1.profiles[k]));
            }
            lemma_join_all(members, ids, ks);
            Self::lemma_wf_class_update(before, after, c, join_all(members, ids));
        }
    }

    /// Loading a roster whose names are distinct against an id map whose largest
    /// id is `M` gives each of the `N` names the map lacks a profile whose id is
    /// above `M`, at most `M + N`, used by no entry of the map, and distinct from the
    /// id of every other such name; the last profile id becomes `M + N`.
    pub proof fn lemma_new_fresh_ids(
        roster: &serialization::PeopleRepartition,
        map: &serialization::IdMap,
        t: &DataServer,
    )
        requires
            t.loaded_from(roster, map),
            t.wf(),
            roster_names(roster.profiles@).no_duplicates(),
            max_id(profil_known(map.profil_mapping@)) + unseen_count(
                profil_known(map.profil_mapping@),
                roster_names(roster.profiles@),
            ) <= u32::MAX,
        ensures
            ({
                let pk = profil_known(map.profil_mapping@);
                let names = roster_names(roster.profiles@);
                let m = max_id(pk);
                let n = unseen_count(pk, names);
                &&& t.last_profil_id() == m + n
                &&& forall|i: int|
                    0 <= i < names.len() && !names_of(pk).contains(#[trigger] names[i]) ==> {
                        let id = t.profiles()[t.name_pos(names[i])].0.0;
                        &&& t.name_pos(names[i]) >= 0
                        &&& m < id <= m + n
                        &&& forall|j: int| 0 <= j < pk.len() ==> id != #[trigger] pk[j].1
                    }
                &&& forall|i: int, j: int|
                    0 <= i < names.len() && 0 <= j < names.len() && i != j && !names_of(pk).contains(
                        #[trigger] names[i],
                    ) && !names_of(pk).contains(#[trigger] names[j]) ==> t.profiles()[t.name_pos(
                        names[i],
                    )].0 != t.profiles()[t.name_pos(names[j])].0
            }),
    {
        let pk = profil_known(map.profil_mapping@);
        let names = roster_names(roster.profiles@);
        let m = max_id(pk);
        let rp = roster.profiles@;
        let (_, pc, pids) = assign(pk, m, names);
        crate::reconcile::lemma_max_id(pk);
        lemma_assign_fresh(pk, m, names);
        let ps = load_spec(rp, pids);
        assert(t.profiles() == ps);
        assert(rp.take(rp.len() as int) =~= rp);
        assert(pids.take(rp.len() as int) =~= pids);
        assert forall|i: int| 0 <= i < names.len() && !names_of(pk).contains(#[trigger] names[i]) implies ({
            let id = t.profiles()[t.name_pos(names[i])].0.0;
            &&& t.name_pos(names[i]) >= 0
            &&& t.profiles()[t.name_pos(names[i])].0.0 == pids[i]
            &&& m < id <= m + unseen_count(pk, names)
            &&& forall|j: int| 0 <= j < pk.len() ==> id != #[trigger] pk[j].1
        }) by {
            let prev = load_spec(rp.take(i), pids.take(i));
            lemma_load_origin(rp, pids, i);
            lemma_load_step(rp, pids, i);
            let e = (ProfilID(pids[i]), Profil { identity: rp[i].identity, permissions: rp[i].permissions });
            assert(!keys(prev).contains(e.0)) by {
                if keys(prev).contains(e.0) {
                    let q = choose|q: int| 0 <= q < keys(prev).len() && keys(prev)[q] == e.0;
                    assert(prev[q].0 == e.0);
                    let j = choose|j: int|
                        0 <= j < i && (#[trigger] prev[q]).0 == ProfilID(pids[j])
                            && prev[q].1.identity.name@ == rp[j].identity.name@;
                    if names_of(pk).contains(names[j]) {
                        crate::lemma_first_pos_contains(names_of(pk), names[j]);
                        lemma_first_pos(names_of(pk), names[j]);
                        assert(pk[first_pos(names_of(pk), names[j])].1 <= m);
                    }
                }
            }
            assert(!names_in(prev).contains(e.1.identity.name@)) by {
                if names_in(prev).contains(e.1.identity.name@) {
                    let q = choose|q: int|
                        0 <= q < names_in(prev).len() && names_in(prev)[q] == e.1.identity.name@;
                    let j = choose|j: int|
                        0 <= j < i && (#[trigger] prev[q]).0 == ProfilID(pids[j])
                            && prev[q].1.identity.name@ == rp[j].identity.name@;
                    assert(names[j] == names[i]);
                }
            }
            let cur = load_spec(rp.take(i + 1), pids.take(i + 1));
            assert(cur == prev.push(e));
            lemma_load_prefix(rp, pids, i + 1, rp.len() as int);
            let q = prev.len() as int;
            assert(ps[q] == cur[q]);
            assert(names_in(ps)[q] == names[i]);
            lemma_first_pos_distinct(names_in(ps), q);
            assert(t.name_pos(names[i]) == q);
            assert forall|j: int| 0 <= j < pk.len() implies pids[i] != #[trigger] pk[j].1 by {}
        }
        assert forall|i: int, j: int|
            0 <= i < names.len() && 0 <= j < names.len() && i != j && !names_of(pk).contains(
                #[trigger] names[i],
            ) && !names_of(pk).contains(#[trigger] names[j]) implies t.profiles()[t.name_pos(
                names[i],
            )].0 != t.profiles()[t.name_pos(names[j])].0 by {
            if i < j {
                assert(pids[i] < pids[j]);
            } else {
                assert(pids[j] < pids[i]);
            }
        }
    }

    /// The invariant of the propositions: one list per target, and each list with
    /// distinct texts and each voter in the votes of at most one proposition, once.
    pub open spec fn ledger_ok(&self) -> bool {
        &&& keys(self.nicknames()).no_duplicates()
        &&& forall|k: int| 0 <= k < self.nicknames().len() ==> ledger_list_ok(
            #[trigger] self.nicknames()[k].1,
        )
    }

    /// Replacing the list at `np` by one that keeps the invariant, under the same
    /// target, keeps the invariant of the propositions.
    pub proof fn lemma_ledger_update(
        before: &DataServer,
        after: &DataServer,
        np: int,
        l: Seq<PropositionView>,
    )
        requires
            before.ledger_ok(),
            0 <= np < before.nicknames().len(),
            after.nicknames() == before.nicknames().update(np, (before.nicknames()[np].0, l)),
            ledger_list_ok(l),
        ensures
            after.ledger_ok(),
    {
        assert(keys(after.nicknames()) =~= keys(before.nicknames()));
        assert forall|k: int| 0 <= k < after.nicknames().len() implies ledger_list_ok(
            #[trigger] after.nicknames()[k].1,
        ) by {
            if k != np {
                assert(after.nicknames()[k] == before.nicknames()[k]);
            }
        }
    }

    /// A vote keeps the invariant of the propositions.
    pub proof fn lemma_ledger_vote(
        before: &DataServer,
        after: &DataServer,
        voter: ProfilID,
        target: ProfilID,
        text: Seq<char>,
    )
        requires
            Self::vote_outcome(before, after, voter, target, text),
            before.ledger_ok(),
        ensures
            after.ledger_ok(),
    {
        if before.vote_applies(voter, target, text) {
            let np = before.nick_pos(target);
            if np >= 0 {
                lemma_first_pos(keys(before.nicknames()), target);
                assert(keys(before.nicknames())[np] == before.nicknames()[np].0);
                lemma_vote_keeps_ledger(before.nicknames()[np].1, voter, text);
                Self::lemma_ledger_update(
                    before,
                    after,
                    np,
                    vote_spec(before.nicknames()[np].1, voter, text),
                );
            } else {
                let l = vote_spec(Seq::empty(), voter, text);
                assert(ledger_list_ok(Seq::<PropositionView>::empty()));
                lemma_vote_keeps_ledger(Seq::empty(), voter, text);
                crate::lemma_first_pos_contains(keys(before.nicknames()), target);
                crate::lemma_no_dup_push(keys(before.nicknames()), target);
                assert(keys(after.nicknames()) =~= keys(before.nicknames()).push(target));
                assert forall|k: int| 0 <= k < after.nicknames().len() implies ledger_list_ok(
                    #[trigger] after.nicknames()[k].1,
                ) by {
                    if k < before.nicknames().len() {
                        assert(after.nicknames()[k] == before.nicknames()[k]);
                    }
                }
            }
        }
    }

    /// A delete keeps the invariant of the propositions.
    pub proof fn lemma_ledger_delete(
        before: &DataServer,
        after: &DataServer,
        deleter: ProfilID,
        target: ProfilID,
        text: Seq<char>,
    )
        requires
            Self::delete_outcome(before, after, deleter, target, text),
            before.ledger_ok(),
        ensures
            after.ledger_ok(),
    {
        let np = before.nick_pos(target);
        let l = before.nick_list(target);
        let i = first_pos(texts(l), text);
        if *after != *before {
            lemma_first_pos(keys(before.nicknames()), target);
            lemma_first_pos(texts(l), text);
            assert(keys(before.nicknames())[np] == before.nicknames()[np].0);
            lemma_swap_remove_keeps_ledger(l, i);
            Self::lemma_ledger_update(before, after, np, l.update(i, l.last()).drop_last());
        }
    }

    /// Changing a protection keeps the invariant of the propositions.
    pub proof fn lemma_ledger_protect(
        before: &DataServer,
        after: &DataServer,
        editor: ProfilID,
        target: ProfilID,
        text: Seq<char>,
        state: bool,
    )
        requires
            Self::protect_outcome(before, after, editor, target, text, state),
            before.ledger_ok(),
        ensures
            after.ledger_ok(),
    {
        let np = before.nick_pos(target);
        let l = before.nick_list(target);
        let i = first_pos(texts(l), text);
        if *after != *before {
            lemma_first_pos(keys(before.nicknames()), target);
            lemma_first_pos(texts(l), text);
            assert(keys(before.nicknames())[np] == before.nicknames()[np].0);
            lemma_protect_keeps_ledger(l, i, state);
            Self::lemma_ledger_update(
                before,
                after,
                np,
                l.update(i, PropositionView { protected: state, ..l[i] }),
            );
        }
    }

    /// Deleting a profile keeps the invariant of the propositions.
    pub proof fn lemma_ledger_delete_profil(
        before: &DataServer,
        after: &DataServer,
        name: String,
        r: Result<(), ServerError>,
    )
        requires
            Self::delete_profil_outcome(before, after, name, r),
            before.ledger_ok(),
        ensures
            after.ledger_ok(),
    {
        if before.name_pos(name@) >= 0 {
            let p = before.name_pos(name@);
            lemma_first_pos(before.profil_names(), name@);
            let id = before.profiles()[p].0;
            let np = before.nick_pos(id);
            let kept = if np >= 0 {
                before.nicknames().remove(np)
            } else {
                before.nicknames()
            };
            assert(keys(kept).no_duplicates() && forall|k: int|
                0 <= k < kept.len() ==> ledger_list_ok(#[trigger] kept[k].1)) by {
                if np >= 0 {
                    lemma_first_pos(keys(before.nicknames()), id);
                    crate::lemma_no_dup_remove(keys(before.nicknames()), np);
                    assert(keys(kept) =~= keys(before.nicknames()).remove(np));
                    assert forall|k: int| 0 <= k < kept.len() implies ledger_list_ok(
                        #[trigger] kept[k].1,
                    ) by {
                        if k < np {
                            assert(kept[k] == before.nicknames()[k]);
                        } else {
                            assert(kept[k] == before.nicknames()[k + 1]);
                        }
                    }
                }
            }
            assert(keys(after.nicknames()) =~= keys(kept));
            assert forall|k: int| 0 <= k < after.nicknames().len() implies ledger_list_ok(
                #[trigger] after.nicknames()[k].1,
            ) by {
                lemma_strip_keeps_ledger(kept[k].1, id);
            }
        }
    }
}

} // verus!
