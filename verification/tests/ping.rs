use quantum_simulator::ping::ping_reply;

#[test]
fn ping_is_answered_with_pong() {
    assert_eq!(ping_reply("ping"), "pong");
}

#[test]
fn anything_else_is_not_understood() {
    for message in ["", "pong", "Ping", "ping ", "pin", "pinging", "ping\n"] {
        assert_eq!(ping_reply(message), "Huh?");
    }
}
