use nickname_store::app_state::{choose_source, AppState, ChangedData, CommandOutput, SaveFormat};
use nickname_store::commands::{
    AddClass, AddLonelyToClass, AddProfil, AddToClass, ChangeName, ChangePassword, ChangePermission,
    Commands, DeleteClass, DeleteProfil, PermissionKind, RemoveFromClass, ViewPassword,
};
use nickname_store::data_server::{DataServer, ServerError};
use nickname_store::permissions::{InteractionPermission, Permissions};
use nickname_store::serialization::{IdMap, PeopleRepartition};
use nickname_store::{ClassID, Identity, ProfilID};

fn empty_state() -> AppState {
    let server = DataServer::new(PeopleRepartition::default(), IdMap::default());
    AppState { data_server: server, save_format: SaveFormat::Json }
}

fn run(app: &mut AppState, c: Commands) -> Result<CommandOutput, ServerError> {
    app.execute_command(c)
}

fn add(app: &mut AppState, name: &str) {
    run(app, Commands::AddProfil(AddProfil { name: name.to_string(), password: "pw".to_string() })).unwrap();
}

fn members(app: &AppState, class: usize) -> Vec<String> {
    app.data_server.class_list().classes[class].1.profiles.iter().map(|p| p.1.clone()).collect()
}

#[test]
fn update_classes_output() {
    let o = CommandOutput::update_classes();
    assert!(o.message.is_none());
    assert_eq!(o.changed_data, Some(ChangedData::Classes));
    let d = CommandOutput::default();
    assert!(d.message.is_none() && d.changed_data.is_none());
}

#[test]
fn exit_is_refused() {
    let mut app = empty_state();
    let o = run(&mut app, Commands::Exit).unwrap();
    assert_eq!(o.message.unwrap(), "You can't shutdown the server from here");
    assert!(o.changed_data.is_none());
}

#[test]
fn add_profile_then_conflict() {
    let mut app = empty_state();
    add(&mut app, "Ann");
    let id = app.data_server.get_profil_id(&"Ann".to_string()).unwrap();
    assert_eq!(id, ProfilID(1));
    assert_eq!(app.data_server.get_permission(id), Some(Permissions::new()));
    let e = run(&mut app, Commands::AddProfil(AddProfil { name: "Ann".to_string(), password: "x".to_string() })).unwrap_err();
    assert_eq!(e.message(), "the name Ann is already used");
    assert!(app.data_server.log(&Identity { name: "Ann".to_string(), password: "pw".to_string() }).is_some());
}

#[test]
fn no_id_left() {
    let map = IdMap { profil_mapping: vec![(ProfilID(u32::MAX), "Max".to_string())], class_mapping: vec![(ClassID(u32::MAX), "Top".to_string())] };
    let mut server = DataServer::new(PeopleRepartition::default(), map);
    let e = server.add_profile("New".to_string(), "pw".to_string()).unwrap_err();
    assert!(matches!(e, ServerError::NoFreeId));
    assert_eq!(e.message(), "no id is left");
    assert!(matches!(server.add_class("C".to_string()), Err(ServerError::NoFreeId)));
}

#[test]
fn classes_and_membership() {
    let mut app = empty_state();
    add(&mut app, "Ann");
    add(&mut app, "Bob");
    let o = run(&mut app, Commands::AddClass(AddClass { name: "1A".to_string() })).unwrap();
    assert_eq!(o.changed_data, Some(ChangedData::Classes));
    assert!(matches!(
        run(&mut app, Commands::AddClass(AddClass { name: "1A".to_string() })),
        Err(ServerError::NameAlreadyUsed(_))
    ));
    run(&mut app, Commands::AddToClass(AddToClass { profil_name: "Bob".to_string(), class_name: "1A".to_string() })).unwrap();
    run(&mut app, Commands::AddToClass(AddToClass { profil_name: "Bob".to_string(), class_name: "1A".to_string() })).unwrap();
    assert_eq!(members(&app, 0), vec!["Bob".to_string()]);
    let lonely = run(&mut app, Commands::ViewLonelyPeople).unwrap();
    assert_eq!(lonely.message.unwrap(), "Ann\n");
    run(&mut app, Commands::AddLonelyPeopleToClass(AddLonelyToClass { class: "1A".to_string() })).unwrap();
    assert_eq!(members(&app, 0), vec!["Bob".to_string(), "Ann".to_string()]);
    let none = run(&mut app, Commands::ViewLonelyPeople).unwrap();
    assert_eq!(none.message.unwrap(), "No people found!\n");
    run(&mut app, Commands::RemoveFromClass(RemoveFromClass { profil_name: "Bob".to_string(), class_name: "1A".to_string() })).unwrap();
    assert_eq!(members(&app, 0), vec!["Ann".to_string()]);
    let e = run(&mut app, Commands::AddToClass(AddToClass { profil_name: "Bob".to_string(), class_name: "9Z".to_string() })).unwrap_err();
    assert_eq!(e.message(), "no class named 9Z");
    let e = run(&mut app, Commands::AddToClass(AddToClass { profil_name: "Zed".to_string(), class_name: "1A".to_string() })).unwrap_err();
    assert_eq!(e.message(), "no profile named Zed");
    run(&mut app, Commands::DeleteClass(DeleteClass { name: "1A".to_string() })).unwrap();
    assert!(app.data_server.class_list().classes.is_empty());
    assert!(matches!(
        run(&mut app, Commands::DeleteClass(DeleteClass { name: "1A".to_string() })),
        Err(ServerError::ClassNotFound(_))
    ));
}

#[test]
fn lonely_into_missing_class_fails() {
    let mut app = empty_state();
    add(&mut app, "Ann");
    let e = run(&mut app, Commands::AddLonelyPeopleToClass(AddLonelyToClass { class: "Nope".to_string() })).unwrap_err();
    assert!(matches!(e, ServerError::ClassNotFound(_)));
}

#[test]
fn passwords_and_names() {
    let mut app = empty_state();
    add(&mut app, "Ann");
    let o = run(&mut app, Commands::ViewPassword(ViewPassword { name: "Ann".to_string() })).unwrap();
    assert_eq!(o.message.unwrap(), "Ann's password is pw");
    run(&mut app, Commands::ChangePassword(ChangePassword { name: "Ann".to_string(), new_password: "secret".to_string() })).unwrap();
    let id = app.data_server.get_profil_id(&"Ann".to_string()).unwrap();
    assert_eq!(app.data_server.get_password(id).unwrap(), "secret");
    assert!(matches!(app.data_server.get_password(ProfilID(42)), Err(ServerError::IdNotFound(ProfilID(42)))));
    assert!(app.data_server.change_password(ProfilID(42), "x".to_string()).is_err());
    add(&mut app, "Bob");
    assert!(matches!(
        run(&mut app, Commands::ChangeName(ChangeName { name: "Ann".to_string(), new_name: "Bob".to_string() })),
        Err(ServerError::NameAlreadyUsed(_))
    ));
    run(&mut app, Commands::ChangeName(ChangeName { name: "Ann".to_string(), new_name: "Anna".to_string() })).unwrap();
    assert_eq!(app.data_server.get_profil_id(&"Anna".to_string()).unwrap(), id);
    let e = run(&mut app, Commands::ViewPassword(ViewPassword { name: "Ann".to_string() })).unwrap_err();
    assert!(matches!(e, ServerError::ProfilNotFound(_)));
}

#[test]
fn change_permission_kinds() {
    let mut app = empty_state();
    add(&mut app, "Ann");
    let id = app.data_server.get_profil_id(&"Ann".to_string()).unwrap();
    for kind in [
        PermissionKind::Vote { permission: InteractionPermission::SameClass },
        PermissionKind::Delete { permission: InteractionPermission::AnyBody },
        PermissionKind::Protect { permission: InteractionPermission::YourSelf },
        PermissionKind::UseCmd { permission: true },
    ] {
        run(&mut app, Commands::ChangePerm(ChangePermission { name: "Ann".to_string(), kind })).unwrap();
    }
    assert_eq!(
        app.data_server.get_permission(id),
        Some(Permissions {
            vote: InteractionPermission::SameClass,
            delete: InteractionPermission::AnyBody,
            protect_nickname: InteractionPermission::YourSelf,
            allowed_to_use_cmd: true,
        })
    );
}

#[test]
fn delete_profile_prunes_references() {
    let mut app = empty_state();
    add(&mut app, "Ann");
    add(&mut app, "Bob");
    run(&mut app, Commands::AddClass(AddClass { name: "1A".to_string() })).unwrap();
    run(&mut app, Commands::AddLonelyPeopleToClass(AddLonelyToClass { class: "1A".to_string() })).unwrap();
    let ann = app.data_server.get_profil_id(&"Ann".to_string()).unwrap();
    let bob = app.data_server.get_profil_id(&"Bob".to_string()).unwrap();
    app.data_server.vote(ann, bob, "Bobby".to_string());
    app.data_server.vote(bob, ann, "Annie".to_string());
    app.data_server.vote(bob, bob, "Bobby".to_string());
    let o = run(&mut app, Commands::DeleteProfil(DeleteProfil { name: "Ann".to_string() })).unwrap();
    assert_eq!(o.changed_data, Some(ChangedData::Classes));
    assert_eq!(members(&app, 0), vec!["Bob".to_string()]);
    assert!(app.data_server.personne_profil(None, ann).nicknames.is_empty());
    let bobs = app.data_server.personne_profil(Some(bob), bob);
    assert_eq!(bobs.nicknames.len(), 1);
    assert_eq!(bobs.nicknames[0].count, 1);
    assert!(bobs.nicknames[0].contain_you);
    assert!(matches!(
        run(&mut app, Commands::DeleteProfil(DeleteProfil { name: "Ann".to_string() })),
        Err(ServerError::ProfilNotFound(_))
    ));
}

#[test]
fn source_choice() {
    assert_eq!(choose_source(true, false, None, SaveFormat::Json), Some(SaveFormat::Cbor));
    assert_eq!(choose_source(false, true, None, SaveFormat::Cbor), Some(SaveFormat::Json));
    assert_eq!(choose_source(false, false, Some(true), SaveFormat::Cbor), None);
    assert_eq!(choose_source(true, true, Some(true), SaveFormat::Json), Some(SaveFormat::Cbor));
    assert_eq!(choose_source(true, true, Some(false), SaveFormat::Cbor), Some(SaveFormat::Json));
    assert_eq!(choose_source(true, true, None, SaveFormat::Cbor), Some(SaveFormat::Cbor));
    assert_eq!(choose_source(true, true, None, SaveFormat::Json), Some(SaveFormat::Json));
}

#[test]
fn error_messages() {
    assert_eq!(ServerError::IdNotFound(ProfilID(1)).message(), "no profile has this id");
    assert_eq!(ServerError::ClassNotFound("K".to_string()).message(), "no class named K");
}
