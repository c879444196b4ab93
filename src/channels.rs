use vstd::prelude::*;

verus! {

/// A channel as submitted for creation.
pub struct NewChannel {
    pub guild_id: i32,
    pub name: String,
    pub kind: String,
}

/// A stored channel.
pub struct Channel {
    /// Globally unique id.
    pub id: i32,
    /// Id of the guild the channel belongs to.
    pub guild_id: i32,
    /// Display name.
    pub name: String,
    /// The channel's kind, one of the names that [`ChannelKind`] hands out.
    pub kind: String,
}

/// The kind of a [`Channel`], built only through its named constructors.
pub struct ChannelKind {
    kind: String,
}

impl ChannelKind {
    /// The name under which the kind is stored.
    pub closed spec fn spec_name(&self) -> Seq<char> {
        self.kind@
    }

    fn new(kind: &str) -> (r: ChannelKind)
        ensures
            r.spec_name() == kind@,
    {
        ChannelKind { kind: kind.to_owned() }
    }

    /// A text channel: users can write into it.
    pub fn text() -> (r: ChannelKind)
        ensures
            r.spec_name() == "text"@,
    {
        ChannelKind::new("text")
    }

    /// A category channel: groups channels together.
    pub fn category() -> (r: ChannelKind)
        ensures
            r.spec_name() == "category"@,
    {
        ChannelKind::new("category")
    }

    /// A voice channel: can be connected to.
    pub fn voice() -> (r: ChannelKind)
        ensures
            r.spec_name() == "voice"@,
    {
        ChannelKind::new("voice")
    }

    /// A system channel: used by the server to send data.
    pub fn system() -> (r: ChannelKind)
        ensures
            r.spec_name() == "system"@,
    {
        ChannelKind::new("system")
    }

    /// The stored name of the kind.
    pub fn name(&self) -> (r: &str)
        ensures
            r@ == self.spec_name(),
    {
        self.kind.as_str()
    }
}

/// A point in time, as seconds and nanoseconds since the Unix epoch (UTC).
#[derive(Clone, Copy, Debug, PartialEq, Eq, Structural)]
pub struct Timestamp {
    pub secs: i64,
    pub nanos: u32,
}

/// Which part of a channel's history a client asks for.
pub struct HistoryConfig {
    pub limit: Option<i32>,
    pub before: Option<Timestamp>,
    pub after: Option<Timestamp>,
}

/// What one role may do in one channel of a guild.
pub struct ChannelPermissions {
    pub role_id: i32,
    pub guild_id: i32,
    pub channel_id: i32,
    pub can_read: bool,
    pub can_write: bool,
}

/// Channel permissions together with the role, guild and channel they name.
pub struct PopulatedChannelPermissions<R, G> {
    pub permissions: ChannelPermissions,
    pub role: R,
    pub guild: G,
    pub channel: Channel,
}

impl<R, G> PopulatedChannelPermissions<R, G> {
    pub fn new(permissions: ChannelPermissions, role: R, guild: G, channel: Channel) -> (r: Self)
        ensures
            r.permissions == permissions,
            r.role == role,
            r.guild == guild,
            r.channel == channel,
    {
        PopulatedChannelPermissions { permissions, role, guild, channel }
    }
}

/// The request handlers that the channel endpoints are served by.
#[derive(Clone, Copy, Debug, PartialEq, Eq, Structural)]
pub enum ChannelRoute {
    /// A page of a channel's message history.
    GetChannelHistory,
    /// One channel by id.
    GetChannel,
    /// Subscription of the caller to a channel's live events.
    Subscribe,
}

/// The handlers mounted under the channel endpoints, in mounting order.
pub fn routes() -> (r: Vec<ChannelRoute>)
    ensures
        r@ == seq![ChannelRoute::GetChannelHistory, ChannelRoute::GetChannel, ChannelRoute::Subscribe],
{
    let mut routes: Vec<ChannelRoute> = Vec::new();
    routes.push(ChannelRoute::GetChannelHistory);
    routes.push(ChannelRoute::GetChannel);
    routes.push(ChannelRoute::Subscribe);
    assert(routes@ =~= seq![
        ChannelRoute::GetChannelHistory,
        ChannelRoute::GetChannel,
        ChannelRoute::Subscribe,
    ]);
    routes
}

} // verus!
