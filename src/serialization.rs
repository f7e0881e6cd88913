use crate::permissions::Permissions;
use crate::{ClassID, Identity, ProfilID};
use vstd::prelude::*;

verus! {

/// A profile as the roster document holds it.
#[derive(Clone, Debug)]
pub struct Profil {
    pub identity: Identity,
    pub permissions: Permissions,
}

/// A class as the roster document holds it: its members by name.
#[derive(Clone, Debug)]
pub struct Class {
    pub name: String,
    pub people: Vec<String>,
}

/// The roster document: profiles and classes, keyed by name.
#[derive(Clone, Debug)]
pub struct PeopleRepartition {
    pub profiles: Vec<Profil>,
    pub classes: Vec<Class>,
}

/// The identifier map document: which numeric id each name had.
#[derive(Clone, Debug)]
pub struct IdMap {
    pub profil_mapping: Vec<(ProfilID, String)>,
    pub class_mapping: Vec<(ClassID, String)>,
}

impl Default for PeopleRepartition {
    fn default() -> (r: PeopleRepartition)
        ensures
            r.profiles@.len() == 0,
            r.classes@.len() == 0,
    {
        PeopleRepartition { profiles: Vec::new(), classes: Vec::new() }
    }
}

impl Default for IdMap {
    fn default() -> (r: IdMap)
        ensures
            r.profil_mapping@.len() == 0,
            r.class_mapping@.len() == 0,
    {
        IdMap { profil_mapping: Vec::new(), class_mapping: Vec::new() }
    }
}

} // verus!
