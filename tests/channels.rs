use chat_gateway::channels::{
    routes, Channel, ChannelKind, ChannelPermissions, ChannelRoute, HistoryConfig,
    PopulatedChannelPermissions, Timestamp,
};

#[test]
fn channel_kind_names() {
    assert_eq!(ChannelKind::text().name(), "text");
    assert_eq!(ChannelKind::category().name(), "category");
    assert_eq!(ChannelKind::voice().name(), "voice");
    assert_eq!(ChannelKind::system().name(), "system");
}

#[test]
fn channel_routes_in_order() {
    assert_eq!(
        routes(),
        vec![ChannelRoute::GetChannelHistory, ChannelRoute::GetChannel, ChannelRoute::Subscribe]
    );
}

#[test]
fn populated_permissions_keep_parts() {
    let perms = ChannelPermissions { role_id: 1, guild_id: 2, channel_id: 3, can_read: true, can_write: false };
    let channel = Channel { id: 3, guild_id: 2, name: "general".to_string(), kind: "text".to_string() };
    let p = PopulatedChannelPermissions::new(perms, "member", "guild", channel);
    assert_eq!(p.permissions.channel_id, 3);
    assert!(p.permissions.can_read && !p.permissions.can_write);
    assert_eq!(p.role, "member");
    assert_eq!(p.channel.name, "general");
}

#[test]
fn history_config_holds_window() {
    let h = HistoryConfig {
        limit: Some(50),
        before: Some(Timestamp { secs: 1_700_000_000, nanos: 5 }),
        after: None,
    };
    assert_eq!(h.limit, Some(50));
    assert_eq!(h.before.unwrap().secs, 1_700_000_000);
    assert!(h.after.is_none());
}
