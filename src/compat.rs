use vstd::prelude::*;

verus! {

/// A nickname as the earlier nickname file holds it: its voters by name.
#[derive(Clone, Debug)]
pub struct Nickname {
    pub nickname: String,
    pub votes: Vec<String>,
}

/// The earlier nickname file: for each profile name, its nicknames.
#[derive(Clone, Debug)]
pub struct Group {
    pub profiles: Vec<(String, Vec<Nickname>)>,
}

} // verus!
