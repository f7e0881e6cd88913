use crate::commands::{apply_kind, with_kind, Commands};
use crate::data_server::{lonely, pair_views, DataServer, ServerError};
use crate::{first_pos, lemma_first_pos, ProfilID};
use vstd::prelude::*;
use vstd::string::StringExecFns;

verus! {

/// The form in which the documents are written.
#[derive(Clone, Copy, Debug, PartialEq, Eq, Structural)]
pub enum SaveFormat {
    Cbor,
    Json,
}

/// What a client must fetch again after a command.
#[derive(Clone, Copy, Debug, PartialEq, Eq, Structural)]
pub enum ChangedData {
    Classes,
}

/// The answer to a command: a message to show, if any, and what changed.
#[derive(Clone, Debug)]
pub struct CommandOutput {
    pub message: Option<String>,
    pub changed_data: Option<ChangedData>,
}

impl Default for CommandOutput {
    fn default() -> (r: CommandOutput)
        ensures
            r.message.is_none(),
            r.changed_data.is_none(),
    {
        CommandOutput { message: None, changed_data: None }
    }
}

impl CommandOutput {
    /// No message; the class list changed.
    pub fn update_classes() -> (r: Self)
        ensures
            r.message.is_none(),
            r.changed_data == Some(ChangedData::Classes),
    {
        Self { message: None, changed_data: Some(ChangedData::Classes) }
    }
}

/// Which stored form of a document to read: the only one present, or, when both
/// are, the more recently modified one; when their times cannot be compared, the
/// one of the configured format.
pub open spec fn source_spec(
    cbor_exists: bool,
    json_exists: bool,
    cbor_is_newer: Option<bool>,
    format: SaveFormat,
) -> Option<SaveFormat> {
    if cbor_exists && json_exists {
        let cbor = match cbor_is_newer {
            Some(b) => b,
            None => format == SaveFormat::Cbor,
        };
        if cbor {
            Some(SaveFormat::Cbor)
        } else {
            Some(SaveFormat::Json)
        }
    } else if cbor_exists {
        Some(SaveFormat::Cbor)
    } else if json_exists {
        Some(SaveFormat::Json)
    } else {
        None
    }
}

/// Which stored form of a document to read.
pub fn choose_source(
    cbor_exists: bool,
    json_exists: bool,
    cbor_is_newer: Option<bool>,
    format: SaveFormat,
) -> (r: Option<SaveFormat>)
    ensures
        r == source_spec(cbor_exists, json_exists, cbor_is_newer, format),
{
    match (cbor_exists, json_exists) {
        (true, false) => Some(SaveFormat::Cbor),
        (false, true) => Some(SaveFormat::Json),
        (true, true) => {
            let cbor = match cbor_is_newer {
                Some(b) => b,
                None => format == SaveFormat::Cbor,
            };
            if cbor {
                Some(SaveFormat::Cbor)
            } else {
                Some(SaveFormat::Json)
            }
        },
        (false, false) => None,
    }
}

/// Each name followed by a line break.
pub open spec fn lines_of(names: Seq<Seq<char>>) -> Seq<char>
    decreases names.len(),
{
    if names.len() == 0 {
        Seq::empty()
    } else {
        lines_of(names.drop_last()) + names.last() + "\n"@
    }
}

/// The report on the profiles that no class holds.
pub open spec fn lonely_report(l: Seq<(ProfilID, Seq<char>)>) -> Seq<char> {
    if l.len() == 0 {
        "No people found!\n"@
    } else {
        lines_of(l.map_values(|e: (ProfilID, Seq<char>)| e.1))
    }
}

/// The result of a command with its output dropped.
pub open spec fn unit(r: Result<CommandOutput, ServerError>) -> Result<(), ServerError> {
    match r {
        Ok(_) => Ok(()),
        Err(e) => Err(e),
    }
}

/// A successful result carries this message and this change.
pub open spec fn output_is(
    r: Result<CommandOutput, ServerError>,
    message: Option<Seq<char>>,
    changed: Option<ChangedData>,
) -> bool {
    match r {
        Ok(o) => o.changed_data == changed && match message {
            Some(m) => o.message is Some && o.message.unwrap()@ == m,
            None => o.message is None,
        },
        Err(_) => true,
    }
}

/// `after` and `r` are the store and result once `command` ran on `before`.
pub open spec fn command_outcome(
    before: &DataServer,
    after: &DataServer,
    command: Commands,
    r: Result<CommandOutput, ServerError>,
) -> bool {
    let classes = Some(ChangedData::Classes);
    match command {
        Commands::Exit => *after == *before && r is Ok && output_is(
            r,
            Some("You can't shutdown the server from here"@),
            None,
        ),
        Commands::AddProfil(c) => DataServer::add_profile_outcome(
            before,
            after,
            c.name,
            c.password,
            unit(r),
        ) && output_is(r, None, None),
        Commands::DeleteProfil(c) => DataServer::delete_profil_outcome(before, after, c.name, unit(r))
            && output_is(r, None, classes),
        Commands::AddClass(c) => DataServer::add_class_outcome(before, after, c.name, unit(r))
            && output_is(r, None, classes),
        Commands::DeleteClass(c) => DataServer::delete_class_outcome(before, after, c.name, unit(r))
            && output_is(r, None, classes),
        Commands::ViewLonelyPeople => *after == *before && r is Ok && output_is(
            r,
            Some(lonely_report(lonely(before.profiles(), before.class_seq()))),
            None,
        ),
        Commands::AddLonelyPeopleToClass(c) => DataServer::lonely_outcome(
            before,
            after,
            c.class,
            unit(r),
        ) && output_is(r, None, classes),
        Commands::ViewPassword(c) => {
            let p = before.name_pos(c.name@);
            if p < 0 {
                r == Err::<CommandOutput, ServerError>(ServerError::ProfilNotFound(c.name))
                    && *after == *before
            } else {
                let q = before.profil_pos(before.profiles()[p].0);
                *after == *before && r is Ok && output_is(
                    r,
                    Some(c.name@ + "'s password is "@ + before.profiles()[q].1.identity.password@),
                    None,
                )
            }
        },
        Commands::ChangePassword(c) => {
            let p = before.name_pos(c.name@);
            if p < 0 {
                r == Err::<CommandOutput, ServerError>(ServerError::ProfilNotFound(c.name))
                    && *after == *before
            } else {
                DataServer::change_password_outcome(
                    before,
                    after,
                    before.profiles()[p].0,
                    c.new_password,
                    unit(r),
                ) && output_is(r, None, None)
            }
        },
        Commands::ChangeName(c) => DataServer::change_name_outcome(
            before,
            after,
            c.name,
            c.new_name,
            unit(r),
        ) && output_is(r, None, classes),
        Commands::AddToClass(c) => {
            let p = before.name_pos(c.profil_name@);
            if p < 0 {
                r == Err::<CommandOutput, ServerError>(ServerError::ProfilNotFound(c.profil_name))
                    && *after == *before
            } else {
                DataServer::add_to_class_outcome(
                    before,
                    after,
                    before.profiles()[p].0,
                    c.class_name,
                    unit(r),
                ) && output_is(r, None, classes)
            }
        },
        Commands::RemoveFromClass(c) => {
            let p = before.name_pos(c.profil_name@);
            if p < 0 {
                r == Err::<CommandOutput, ServerError>(ServerError::ProfilNotFound(c.profil_name))
                    && *after == *before
            } else {
                DataServer::remove_from_class_outcome(
                    before,
                    after,
                    before.profiles()[p].0,
                    c.class_name,
                    unit(r),
                ) && output_is(r, None, classes)
            }
        },
        Commands::ChangePerm(c) => {
            let p = before.name_pos(c.name@);
            if p < 0 {
                r == Err::<CommandOutput, ServerError>(ServerError::ProfilNotFound(c.name))
                    && *after == *before
            } else {
                let id = before.profiles()[p].0;
                DataServer::set_permissions_outcome(
                    before,
                    after,
                    id,
                    with_kind(before.permissions_of(id).unwrap(), c.kind),
                    unit(r),
                ) && output_is(r, None, None)
            }
        },
    }
}

/// The profile found by name is found again by its id.
proof fn lemma_found_by_id(server: &DataServer, p: int)
    requires
        0 <= p < server.profiles().len(),
    ensures
        server.profil_pos(server.profiles()[p].0) >= 0,
{
    let ks = crate::data_server::keys(server.profiles());
    lemma_first_pos(ks, server.profiles()[p].0);
    assert(ks[p] == server.profiles()[p].0);
}

/// The store together with the form its documents are written in.
pub struct AppState {
    pub data_server: DataServer,
    pub save_format: SaveFormat,
}

impl AppState {
    /// Runs an administrative command on the store.
    pub fn execute_command(&mut self, command: Commands) -> (r: Result<CommandOutput, ServerError>)
        requires
            old(self).data_server.wf(),
        ensures
            final(self).data_server.wf(),
            command_outcome(&old(self).data_server, &final(self).data_server, command, r),
            final(self).save_format == old(self).save_format,
    {
        let server = &mut self.data_server;
        match command {
            Commands::Exit => Ok(
                CommandOutput {
                    message: Some(String::from_str("You can't shutdown the server from here")),
                    changed_data: None,
                },
            ),
            Commands::AddProfil(c) => match server.add_profile(c.name, c.password) {
                Ok(()) => Ok(CommandOutput::default()),
                Err(e) => Err(e),
            },
            Commands::DeleteProfil(c) => match server.delete_profil(c.name) {
                Ok(()) => Ok(CommandOutput::update_classes()),
                Err(e) => Err(e),
            },
            Commands::AddClass(c) => match server.add_class(c.name) {
                Ok(()) => Ok(CommandOutput::update_classes()),
                Err(e) => Err(e),
            },
            Commands::DeleteClass(c) => match server.delete_class(c.name) {
                Ok(()) => Ok(CommandOutput::update_classes()),
                Err(e) => Err(e),
            },
            Commands::ViewLonelyPeople => {
                let people = server.find_people_out_of_any_class();
                let ghost l = pair_views(people@);
                let ghost names = l.map_values(|e: (ProfilID, Seq<char>)| e.1);
                let mut output = String::new();
                if people.len() == 0 {
                    output.append("No people found!\n");
                    assert(output@ =~= "No people found!\n"@);
                }
                let mut i: usize = 0;
                while i < people.len()
                    invariant
                        i <= people@.len(),
                        l == pair_views(people@),
                        names == l.map_values(|e: (ProfilID, Seq<char>)| e.1),
                        people@.len() > 0 ==> output@ == lines_of(names.take(i as int)),
                        people@.len() == 0 ==> output@ == "No people found!\n"@,
                    decreases people.len() - i,
                {
                    assert(names.take(i as int + 1).drop_last() =~= names.take(i as int));
                    assert(names.take(i as int + 1).last() == people@[i as int].1@);
                    output.append(people[i].1.as_str());
                    output.append("\n");
                    i += 1;
                }
                assert(names.take(people.len() as int) =~= names);
                Ok(CommandOutput { message: Some(output), changed_data: None })
            },
            Commands::AddLonelyPeopleToClass(c) => match server.add_lonely_to_class(&c.class) {
                Ok(()) => Ok(CommandOutput::update_classes()),
                Err(e) => Err(e),
            },
            Commands::ViewPassword(c) => {
                let id = match server.get_profil_id(&c.name) {
                    Ok(id) => id,
                    Err(e) => return Err(e),
                };
                proof {
                    lemma_first_pos(server.profil_names(), c.name@);
                    lemma_found_by_id(server, server.name_pos(c.name@));
                }
                let password = match server.get_password(id) {
                    Ok(p) => p,
                    Err(e) => return Err(e),
                };
                let message = c.name.clone().concat("'s password is ").concat(password.as_str());
                Ok(CommandOutput { message: Some(message), changed_data: None })
            },
            Commands::ChangePassword(c) => {
                let id = match server.get_profil_id(&c.name) {
                    Ok(id) => id,
                    Err(e) => return Err(e),
                };
                match server.change_password(id, c.new_password) {
                    Ok(()) => Ok(CommandOutput::default()),
                    Err(e) => Err(e),
                }
            },
            Commands::ChangeName(c) => match server.change_name(c.name, c.new_name) {
                Ok(()) => Ok(CommandOutput::update_classes()),
                Err(e) => Err(e),
            },
            Commands::AddToClass(c) => {
                let id = match server.get_profil_id(&c.profil_name) {
                    Ok(id) => id,
                    Err(e) => return Err(e),
                };
                match server.add_to_class(id, &c.class_name) {
                    Ok(()) => Ok(CommandOutput::update_classes()),
                    Err(e) => Err(e),
                }
            },
            Commands::RemoveFromClass(c) => {
                let id = match server.get_profil_id(&c.profil_name) {
                    Ok(id) => id,
                    Err(e) => return Err(e),
                };
                match server.remove_from_class(id, c.class_name) {
                    Ok(()) => Ok(CommandOutput::update_classes()),
                    Err(e) => Err(e),
                }
            },
            Commands::ChangePerm(c) => {
                let id = match server.get_profil_id(&c.name) {
                    Ok(id) => id,
                    Err(e) => return Err(e),
                };
                proof {
                    lemma_first_pos(server.profil_names(), c.name@);
                    lemma_found_by_id(server, server.name_pos(c.name@));
                }
                let mut perm = match server.get_permission(id) {
                    Some(p) => p,
                    None => return Err(ServerError::IdNotFound(id)),
                };
                apply_kind(&mut perm, c.kind);
                match server.set_permissions(id, perm) {
                    Ok(()) => Ok(CommandOutput::default()),
                    Err(e) => Err(e),
                }
            },
        }
    }
}

} // verus!
