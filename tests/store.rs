use nickname_store::compat::{Group, Nickname};
use nickname_store::data_server::DataServer;
use nickname_store::mutation_tracker::MutationTracker;
use nickname_store::permissions::{InteractionPermission, Permissions};
use nickname_store::serialization::{Class, IdMap, PeopleRepartition, Profil};
use nickname_store::{ClassID, Identity, ProfilID};

fn perms(vote: InteractionPermission, delete: InteractionPermission, protect: InteractionPermission) -> Permissions {
    Permissions { vote, delete, protect_nickname: protect, allowed_to_use_cmd: false }
}

fn profil(name: &str, p: Permissions) -> Profil {
    Profil { identity: Identity { name: name.to_string(), password: format!("{}-pw", name) }, permissions: p }
}

fn class(name: &str, people: &[&str]) -> Class {
    Class { name: name.to_string(), people: people.iter().map(|s| s.to_string()).collect() }
}

fn empty_map() -> IdMap {
    IdMap { profil_mapping: vec![], class_mapping: vec![] }
}

fn any() -> Permissions {
    perms(InteractionPermission::AnyBody, InteractionPermission::AnyBody, InteractionPermission::AnyBody)
}

/// A, B, C all allowed to vote for anybody; A and B share class "1A".
fn abc() -> DataServer {
    let roster = PeopleRepartition {
        profiles: vec![
            profil("A", perms(InteractionPermission::AnyBody, InteractionPermission::SameClass, InteractionPermission::Forbidden)),
            profil("B", any()),
            profil("C", perms(InteractionPermission::AnyBody, InteractionPermission::SameClass, InteractionPermission::Forbidden)),
        ],
        classes: vec![class("1A", &["A", "B"]), class("1B", &["C"])],
    };
    DataServer::new(roster, empty_map())
}

fn ids(s: &DataServer) -> (ProfilID, ProfilID, ProfilID) {
    (
        s.get_profil_id(&"A".to_string()).unwrap(),
        s.get_profil_id(&"B".to_string()).unwrap(),
        s.get_profil_id(&"C".to_string()).unwrap(),
    )
}

fn texts_counts(s: &DataServer, requester: Option<ProfilID>, target: ProfilID) -> Vec<(String, usize, bool)> {
    s.personne_profil(requester, target)
        .nicknames
        .iter()
        .map(|n| (n.proposition.clone(), n.count, n.contain_you))
        .collect()
}

#[test]
fn scenario_vote_ace_then_champ() {
    let mut s = abc();
    let (a, b, c) = ids(&s);
    s.vote(a, b, "Ace".to_string());
    let p = s.personne_profil(Some(a), b);
    assert_eq!(p.profil_id, b);
    assert!(p.allowed_to_vote);
    assert_eq!(p.nicknames.len(), 1);
    assert_eq!(p.nicknames[0].proposition, "Ace");
    assert_eq!(p.nicknames[0].count, 1);
    assert!(p.nicknames[0].contain_you);
    s.vote(c, b, "Ace".to_string());
    assert_eq!(texts_counts(&s, Some(a), b), vec![("Ace".to_string(), 2, true)]);
    s.vote(a, b, "Champ".to_string());
    assert_eq!(
        texts_counts(&s, Some(a), b),
        vec![("Ace".to_string(), 1, false), ("Champ".to_string(), 1, true)]
    );
}

#[test]
fn scenario_same_class_deleter_outside_class() {
    let mut s = abc();
    let (a, b, c) = ids(&s);
    s.vote(a, b, "Ace".to_string());
    // C may delete only within its own class and is not the author.
    s.delete(c, b, "Ace".to_string());
    assert_eq!(texts_counts(&s, None, b), vec![("Ace".to_string(), 1, false)]);
    // A shares a class with B and is the author anyway.
    s.delete(a, b, "Ace".to_string());
    assert!(texts_counts(&s, None, b).is_empty());
}

#[test]
fn vote_keeps_a_single_ballot_per_voter() {
    let mut s = abc();
    let (a, b, c) = ids(&s);
    s.vote(a, b, "One".to_string());
    s.vote(c, b, "Two".to_string());
    s.vote(a, b, "Two".to_string());
    s.vote(a, b, "Three".to_string());
    let mine: Vec<bool> = s.personne_profil(Some(a), b).nicknames.iter().map(|n| n.contain_you).collect();
    assert_eq!(mine.iter().filter(|x| **x).count(), 1);
    assert_eq!(
        texts_counts(&s, Some(a), b),
        vec![("Two".to_string(), 1, false), ("Three".to_string(), 1, true), ("One".to_string(), 0, false)]
    );
}

#[test]
fn revote_same_text_adds_nothing() {
    let mut s = abc();
    let (a, b, c) = ids(&s);
    s.vote(a, b, "Ace".to_string());
    s.vote(a, b, "Ace".to_string());
    s.vote(a, b, "  Ace ".to_string());
    assert_eq!(texts_counts(&s, Some(a), b), vec![("Ace".to_string(), 1, true)]);
    s.vote(c, b, "Ace".to_string());
    assert_eq!(texts_counts(&s, Some(a), b), vec![("Ace".to_string(), 2, true)]);
}

#[test]
fn vote_trims_and_ignores_blank_text() {
    let mut s = abc();
    let (a, b, _) = ids(&s);
    s.vote(a, b, "   ".to_string());
    assert!(texts_counts(&s, None, b).is_empty());
    assert!(s.try_to_save_nickname().is_none());
    s.vote(a, b, "\t Speedy \n".to_string());
    assert_eq!(texts_counts(&s, None, b), vec![("Speedy".to_string(), 1, false)]);
}

#[test]
fn record_vote_takes_text_as_given() {
    let mut s = abc();
    let (a, b, _) = ids(&s);
    s.record_vote(a, b, " Ace ".to_string());
    assert_eq!(texts_counts(&s, None, b), vec![(" Ace ".to_string(), 1, false)]);
}

#[test]
fn vote_needs_permission_and_existing_profiles() {
    let roster = PeopleRepartition {
        profiles: vec![
            profil("X", perms(InteractionPermission::Forbidden, InteractionPermission::Forbidden, InteractionPermission::Forbidden)),
            profil("Y", perms(InteractionPermission::YourSelf, InteractionPermission::Forbidden, InteractionPermission::Forbidden)),
        ],
        classes: vec![],
    };
    let mut s = DataServer::new(roster, empty_map());
    let x = s.get_profil_id(&"X".to_string()).unwrap();
    let y = s.get_profil_id(&"Y".to_string()).unwrap();
    s.vote(x, y, "No".to_string());
    s.vote(y, x, "No".to_string());
    s.vote(ProfilID(99), y, "Ghost".to_string());
    s.vote(y, ProfilID(99), "Nobody".to_string());
    assert!(texts_counts(&s, None, x).is_empty());
    assert!(texts_counts(&s, None, y).is_empty());
    assert!(texts_counts(&s, None, ProfilID(99)).is_empty());
    s.vote(y, y, "Me".to_string());
    assert_eq!(texts_counts(&s, Some(y), y), vec![("Me".to_string(), 1, true)]);
}

#[test]
fn delete_respects_protection() {
    let roster = PeopleRepartition {
        profiles: vec![
            profil("A", perms(InteractionPermission::AnyBody, InteractionPermission::AnyBody, InteractionPermission::Forbidden)),
            profil("B", any()),
        ],
        classes: vec![],
    };
    let mut s = DataServer::new(roster, empty_map());
    let a = s.get_profil_id(&"A".to_string()).unwrap();
    let b = s.get_profil_id(&"B".to_string()).unwrap();
    s.vote(a, b, "Ace".to_string());
    s.vote(a, a, "Boss".to_string());
    // A may not protect.
    s.update_nickname_protection(a, b, "Ace".to_string(), true);
    assert!(s.personne_profil(Some(a), b).nicknames[0].allowed_to_be_delete);
    s.update_nickname_protection(b, b, "Ace".to_string(), true);
    let view = s.personne_profil(Some(a), b);
    assert!(!view.nicknames[0].allowed_to_be_delete);
    s.delete(a, b, "Ace".to_string());
    assert_eq!(texts_counts(&s, None, b).len(), 1);
    // B may bypass protection.
    assert!(s.personne_profil(Some(b), b).nicknames[0].allowed_to_be_delete);
    s.delete(b, b, "Ace".to_string());
    assert!(texts_counts(&s, None, b).is_empty());
    // Unknown text: nothing happens.
    s.delete(a, a, "Nope".to_string());
    assert_eq!(texts_counts(&s, None, a).len(), 1);
}

#[test]
fn delete_swaps_last_into_place() {
    let mut s = abc();
    let (a, b, c) = ids(&s);
    s.vote(a, b, "One".to_string());
    s.vote(c, b, "Two".to_string());
    s.vote(b, b, "Three".to_string());
    s.delete(b, b, "One".to_string());
    let order: Vec<String> = texts_counts(&s, None, b).into_iter().map(|t| t.0).collect();
    assert_eq!(order, vec!["Three".to_string(), "Two".to_string()]);
}

#[test]
fn permission_scopes_between_profiles() {
    let s = abc();
    let (a, b, c) = ids(&s);
    assert!(s.are_in_same_class(a, b));
    assert!(!s.are_in_same_class(a, c));
    assert!(!s.are_in_same_class(a, ProfilID(77)));
    assert!(!s.is_action_allowed_between(InteractionPermission::Forbidden, a, a));
    assert!(s.is_action_allowed_between(InteractionPermission::YourSelf, a, a));
    assert!(!s.is_action_allowed_between(InteractionPermission::YourSelf, a, b));
    assert!(s.is_action_allowed_between(InteractionPermission::SameClass, a, b));
    assert!(!s.is_action_allowed_between(InteractionPermission::SameClass, b, c));
    assert!(s.is_action_allowed_between(InteractionPermission::AnyBody, a, ProfilID(77)));
    assert_eq!(s.get_permission_on_profil(a, b), (true, true, false));
    assert_eq!(s.get_permission_on_profil(a, c), (true, false, false));
    assert_eq!(s.get_permission_on_profil(ProfilID(77), c), (false, false, false));
    assert!(s.get_permission(ProfilID(77)).is_none());
    assert_eq!(s.get_permission(b), Some(any()));
}

#[test]
fn anonymous_projection_has_no_rights() {
    let mut s = abc();
    let (a, b, _) = ids(&s);
    s.vote(a, b, "Ace".to_string());
    let p = s.personne_profil(None, b);
    assert!(!p.allowed_to_vote);
    assert!(!p.nicknames[0].contain_you);
    assert!(!p.nicknames[0].allowed_to_be_delete);
}

#[test]
fn tracker_clear_dirty_reports_once() {
    let mut t = MutationTracker::new(vec![1u32]);
    assert!(!t.clear_dirty());
    assert_eq!(t.get(), &vec![1u32]);
    assert!(!t.clear_dirty());
    t.get_mut().push(2);
    assert!(t.clear_dirty());
    assert!(!t.clear_dirty());
    assert_eq!(t.get(), &vec![1u32, 2]);
}

#[test]
fn nickname_snapshot_only_after_change() {
    let mut s = abc();
    let (a, b, _) = ids(&s);
    assert!(s.try_to_save_nickname().is_none());
    s.vote(a, b, "Ace".to_string());
    let saved = s.try_to_save_nickname().unwrap();
    assert_eq!(saved.len(), 1);
    assert_eq!(saved[0].0, b);
    assert_eq!(saved[0].1[0].proposition, "Ace");
    assert_eq!(saved[0].1[0].votes, vec![a]);
    assert!(s.try_to_save_nickname().is_none());
}

#[test]
fn roster_snapshot_only_after_change() {
    let mut s = abc();
    assert!(s.build_people_repartition().is_none());
    s.add_class("2A".to_string()).unwrap();
    let r = s.build_people_repartition().unwrap();
    assert_eq!(r.classes.len(), 3);
    assert_eq!(r.classes[0].people, vec!["A".to_string(), "B".to_string()]);
    assert_eq!(r.profiles.len(), 3);
    assert_eq!(r.profiles[1].identity.name, "B");
    assert!(s.build_people_repartition().is_none());
}

#[test]
fn reload_allocates_fresh_ids_above_the_map() {
    let roster = PeopleRepartition {
        profiles: vec![profil("Old", any()), profil("New1", any()), profil("New2", any())],
        classes: vec![class("K", &["Old", "New2", "Ghost"]), class("L", &[])],
    };
    let map = IdMap {
        profil_mapping: vec![(ProfilID(7), "Old".to_string()), (ProfilID(3), "Gone".to_string())],
        class_mapping: vec![(ClassID(4), "L".to_string())],
    };
    let s = DataServer::new(roster, map);
    assert_eq!(s.get_profil_id(&"Old".to_string()).unwrap(), ProfilID(7));
    assert_eq!(s.get_profil_id(&"New1".to_string()).unwrap(), ProfilID(8));
    assert_eq!(s.get_profil_id(&"New2".to_string()).unwrap(), ProfilID(9));
    assert!(s.get_profil_id(&"Gone".to_string()).is_err());
    let m = s.generated_id_map().unwrap();
    assert_eq!(m.class_mapping, vec![(ClassID(5), "K".to_string()), (ClassID(4), "L".to_string())]);
    assert_eq!(
        m.profil_mapping,
        vec![(ProfilID(7), "Old".to_string()), (ProfilID(8), "New1".to_string()), (ProfilID(9), "New2".to_string())]
    );
    let classes = s.class_list();
    assert_eq!(classes.classes[0].0, ClassID(5));
    assert_eq!(
        classes.classes[0].1.profiles,
        vec![(ProfilID(7), "Old".to_string()), (ProfilID(9), "New2".to_string())]
    );
    assert!(classes.classes[1].1.profiles.is_empty());
}

#[test]
fn reload_with_known_names_allocates_nothing() {
    let roster = PeopleRepartition { profiles: vec![profil("P", any())], classes: vec![class("K", &["P"])] };
    let map = IdMap {
        profil_mapping: vec![(ProfilID(2), "P".to_string())],
        class_mapping: vec![(ClassID(1), "K".to_string())],
    };
    let s = DataServer::new(roster, map);
    assert!(s.generated_id_map().is_none());
    assert_eq!(s.build_id_map().profil_mapping, vec![(ProfilID(2), "P".to_string())]);
}

#[test]
fn round_trip_through_documents() {
    let mut s = abc();
    let (a, b, c) = ids(&s);
    s.vote(a, b, "Ace".to_string());
    s.vote(c, a, "Boss".to_string());
    s.add_profile("D".to_string(), "pw".to_string()).unwrap();
    let roster = s.build_people_repartition().unwrap();
    let map = s.build_id_map();
    let nicks = s.try_to_save_nickname().unwrap();
    let mut t = DataServer::new(roster, map);
    t.load_proposition(nicks);
    assert!(t.generated_id_map().is_none());
    assert_eq!(format!("{:?}", t.class_list()), format!("{:?}", s.class_list()));
    assert_eq!(format!("{:?}", t.build_id_map()), format!("{:?}", s.build_id_map()));
    for id in [a, b, c] {
        assert_eq!(
            format!("{:?}", t.personne_profil(Some(a), id)),
            format!("{:?}", s.personne_profil(Some(a), id))
        );
    }
    assert!(t.try_to_save_nickname().is_none());
}

#[test]
fn import_old_nicknames_by_name() {
    let mut s = abc();
    let (a, b, c) = ids(&s);
    let group = Group {
        profiles: vec![
            (
                "B".to_string(),
                vec![
                    Nickname { nickname: "Bee".to_string(), votes: vec!["C".to_string(), "Ghost".to_string(), "A".to_string()] },
                    Nickname { nickname: "Lonely".to_string(), votes: vec![] },
                ],
            ),
            ("Ghost".to_string(), vec![Nickname { nickname: "X".to_string(), votes: vec![] }]),
            ("C".to_string(), vec![]),
        ],
    };
    s.import_old_nickname(group);
    let saved = s.try_to_save_nickname().unwrap();
    assert_eq!(saved.len(), 1);
    assert_eq!(saved[0].0, b);
    assert_eq!(saved[0].1[0].author, c);
    assert_eq!(saved[0].1[0].votes, vec![c, a]);
    assert_eq!(saved[0].1[1].author, b);
    assert!(saved[0].1[1].votes.is_empty());
    assert!(!saved[0].1[0].protected);
}

#[test]
fn log_checks_the_password() {
    let s = abc();
    let (a, _, _) = ids(&s);
    let good = Identity { name: "A".to_string(), password: "A-pw".to_string() };
    let bad = Identity { name: "A".to_string(), password: "nope".to_string() };
    let unknown = Identity { name: "Z".to_string(), password: "A-pw".to_string() };
    assert_eq!(s.log(&good), Some(a));
    assert_eq!(s.log(&bad), None);
    assert_eq!(s.log(&unknown), None);
}

#[test]
fn load_proposition_replaces_lists() {
    let mut s = abc();
    let (a, b, _) = ids(&s);
    s.vote(a, b, "Ace".to_string());
    s.load_proposition(vec![]);
    assert!(texts_counts(&s, None, b).is_empty());
    assert!(s.try_to_save_nickname().is_none());
}

#[test]
fn projection_orders_by_votes_stably() {
    let mut s = abc();
    let (a, b, c) = ids(&s);
    s.vote(a, b, "One".to_string());
    s.vote(c, b, "Two".to_string());
    s.vote(b, b, "Three".to_string());
    s.vote(a, b, "Three".to_string());
    // Stored order: One (0), Two (1), Three (2).
    let listed: Vec<(String, usize)> =
        s.personne_profil(Some(c), b).nicknames.iter().map(|n| (n.proposition.clone(), n.count)).collect();
    assert_eq!(
        listed,
        vec![("Three".to_string(), 2), ("Two".to_string(), 1), ("One".to_string(), 0)]
    );
    s.vote(b, b, "Four".to_string());
    let listed: Vec<(String, usize)> =
        s.personne_profil(None, b).nicknames.iter().map(|n| (n.proposition.clone(), n.count)).collect();
    assert_eq!(
        listed,
        vec![
            ("Two".to_string(), 1),
            ("Three".to_string(), 1),
            ("Four".to_string(), 1),
            ("One".to_string(), 0)
        ]
    );
    let p = s.personne_profil(Some(c), b);
    assert_eq!(p.profil_id, b);
    assert!(p.allowed_to_vote);
}

#[test]
fn unsaved_documents_are_written_again() {
    let mut s = abc();
    let (a, b, _) = ids(&s);
    s.vote(a, b, "Ace".to_string());
    assert!(s.try_to_save_nickname().is_some());
    s.keep_nicknames_unsaved();
    let again = s.try_to_save_nickname().unwrap();
    assert_eq!(again[0].1[0].proposition, "Ace");
    assert!(s.build_people_repartition().is_none());
    s.keep_roster_unsaved();
    assert_eq!(s.build_people_repartition().unwrap().profiles.len(), 3);
    assert!(s.build_people_repartition().is_none());
}

#[test]
fn stale_map_names_are_not_members() {
    let roster = PeopleRepartition { profiles: vec![], classes: vec![class("K", &["Z"])] };
    let map = IdMap { profil_mapping: vec![(ProfilID(5), "Z".to_string())], class_mapping: vec![] };
    let s = DataServer::new(roster, map);
    let classes = s.class_list();
    assert_eq!(classes.classes.len(), 1);
    assert!(classes.classes[0].1.profiles.is_empty());
    assert!(s.get_profil_id(&"Z".to_string()).is_err());
}

#[test]
fn repeated_roster_entries_keep_the_first() {
    let roster = PeopleRepartition {
        profiles: vec![profil("A", any()), profil("B", any()), profil("A", perms(InteractionPermission::Forbidden, InteractionPermission::Forbidden, InteractionPermission::Forbidden))],
        classes: vec![class("K", &["A", "A", "B"]), class("K", &["B"])],
    };
    let s = DataServer::new(roster, empty_map());
    let m = s.build_id_map();
    assert_eq!(m.profil_mapping, vec![(ProfilID(1), "A".to_string()), (ProfilID(2), "B".to_string())]);
    assert_eq!(s.get_permission(ProfilID(1)), Some(any()));
    let classes = s.class_list();
    assert_eq!(classes.classes.len(), 1);
    assert_eq!(
        classes.classes[0].1.profiles,
        vec![(ProfilID(1), "A".to_string()), (ProfilID(2), "B".to_string())]
    );
}

#[test]
fn map_ids_shared_by_two_names_keep_the_first() {
    let roster = PeopleRepartition { profiles: vec![profil("A", any()), profil("B", any())], classes: vec![] };
    let map = IdMap {
        profil_mapping: vec![(ProfilID(5), "A".to_string()), (ProfilID(5), "B".to_string())],
        class_mapping: vec![],
    };
    let s = DataServer::new(roster, map);
    assert_eq!(s.build_id_map().profil_mapping, vec![(ProfilID(5), "A".to_string())]);
    assert!(s.get_profil_id(&"B".to_string()).is_err());
}

#[test]
fn roster_lists_profiles_by_name() {
    let mut s = DataServer::new(PeopleRepartition::default(), empty_map());
    s.add_profile("B".to_string(), "x".to_string()).unwrap();
    s.add_profile("A".to_string(), "y".to_string()).unwrap();
    s.add_profile("Ab".to_string(), "z".to_string()).unwrap();
    let r = s.build_people_repartition().unwrap();
    let names: Vec<String> = r.profiles.iter().map(|p| p.identity.name.clone()).collect();
    assert_eq!(names, vec!["A".to_string(), "Ab".to_string(), "B".to_string()]);
    let t = DataServer::new(r, s.build_id_map());
    assert_eq!(t.get_profil_id(&"B".to_string()).unwrap(), ProfilID(1));
    assert_eq!(t.get_profil_id(&"A".to_string()).unwrap(), ProfilID(2));
    assert!(t.generated_id_map().is_none());
}

#[test]
fn import_skips_known_texts_and_second_votes() {
    let mut s = abc();
    let (a, b, c) = ids(&s);
    s.vote(a, b, "Ace".to_string());
    let group = Group {
        profiles: vec![(
            "B".to_string(),
            vec![
                Nickname { nickname: "Ace".to_string(), votes: vec!["C".to_string()] },
                Nickname { nickname: "Bee".to_string(), votes: vec!["A".to_string(), "C".to_string(), "C".to_string()] },
                Nickname { nickname: "Cee".to_string(), votes: vec!["C".to_string()] },
            ],
        )],
    };
    s.import_old_nickname(group);
    let saved = s.try_to_save_nickname().unwrap();
    let list = &saved[0].1;
    let texts: Vec<String> = list.iter().map(|p| p.proposition.clone()).collect();
    assert_eq!(texts, vec!["Ace".to_string(), "Bee".to_string(), "Cee".to_string()]);
    assert_eq!(list[0].votes, vec![a]);
    assert_eq!(list[1].author, a);
    assert_eq!(list[1].votes, vec![c]);
    assert!(list[2].votes.is_empty());
    assert_eq!(list[2].author, c);
}
