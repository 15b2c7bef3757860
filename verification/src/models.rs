use vstd::prelude::*;

verus! {

/// Identity of a user: an opaque 128-bit identifier.
pub type UserId = u128;

/// Identity of a session: a 128-bit identifier that no two sessions of one
/// store share.
pub type SessionId = u128;

/// An instant, in seconds since the epoch.
pub type Timestamp = u64;

/// One presence session: an interval during which a device was considered
/// present.
#[derive(Debug, PartialEq, Eq)]
pub struct Session {
    /// Unique identifier, given at creation.
    pub id: SessionId,
    /// The owner of the device.
    pub user_id: UserId,
    /// The hardware address that identifies the device.
    pub mac_address: String,
    /// When the session was opened.
    pub start_time: Timestamp,
    /// The instant through which the device is considered present.
    pub end_time: Timestamp,
}

/// The mathematical content of a [`Session`].
pub struct SessionView {
    pub id: int,
    pub user_id: UserId,
    pub mac_address: Seq<char>,
    pub start_time: int,
    pub end_time: int,
}

impl View for Session {
    type V = SessionView;

    open spec fn view(&self) -> SessionView {
        SessionView {
            id: self.id as int,
            user_id: self.user_id,
            mac_address: self.mac_address@,
            start_time: self.start_time as int,
            end_time: self.end_time as int,
        }
    }
}

impl Clone for Session {
    fn clone(&self) -> (copy: Session)
        ensures
            copy@ == self@,
    {
        Session {
            id: self.id,
            user_id: self.user_id,
            mac_address: self.mac_address.clone(),
            start_time: self.start_time,
            end_time: self.end_time,
        }
    }
}

/// The views of a sequence of sessions, in the same order.
pub open spec fn session_views(sessions: Seq<Session>) -> Seq<SessionView> {
    Seq::new(sessions.len(), |i: int| sessions[i]@)
}

/// One observation of a device: the user it belongs to and its hardware
/// address.
pub type Sighting = (UserId, String);

/// The mathematical content of a [`Sighting`].
pub type SightingView = (UserId, Seq<char>);

/// The views of a sequence of sightings, in the same order.
pub open spec fn sighting_views(sightings: Seq<Sighting>) -> Seq<SightingView> {
    Seq::new(sightings.len(), |i: int| (sightings[i].0, sightings[i].1@))
}

/// A credential record: an opaque key and the metadata that travels with it.
#[derive(Debug, PartialEq, Eq)]
pub struct ApiKey {
    /// The lookup key.
    pub key: String,
    /// The owner of the credential.
    pub owner: UserId,
    /// What the credential gives access to.
    pub scope: String,
}

/// The mathematical content of an [`ApiKey`].
pub struct ApiKeyView {
    pub key: Seq<char>,
    pub owner: UserId,
    pub scope: Seq<char>,
}

impl View for ApiKey {
    type V = ApiKeyView;

    open spec fn view(&self) -> ApiKeyView {
        ApiKeyView { key: self.key@, owner: self.owner, scope: self.scope@ }
    }
}

impl Clone for ApiKey {
    fn clone(&self) -> (copy: ApiKey)
        ensures
            copy@ == self@,
    {
        ApiKey { key: self.key.clone(), owner: self.owner, scope: self.scope.clone() }
    }
}

} // verus!
