//! Tests of the string helpers and the peripheral service shapes.

use chain::chat::ChannelReplyTracker;
use chain::chat::Cooldowns;
use chain::chat::MessageUser;
use chain::ingest::parse_known_tz_offset;
use chain::schema::CommandOutput;
use chain::schema::CommandResult;
use chain::schema::OutputKind;
use chain::strutil;
use chain::train::LogStore;
use chain::train::TrainingConfig;
use chain::train::split_line;
use chain::twitch::Credentials;
use chain::twitch::Regular;
use chain::twitch::SameMessageBypass;
use chain::user_api::AccessToken;
use chain::user_api::Response;
use base64::Engine;

#[test]
fn trim_and_counts() {
    assert_eq!(strutil::trim("  hello \t"), "hello");
    assert_eq!(strutil::trim("\u{3000}a b\u{a0}"), "a b");
    assert_eq!(strutil::trim("   "), "");
    assert_eq!(strutil::count_words("  one  two three "), 3);
    assert_eq!(strutil::count_words(""), 0);
    assert_eq!(strutil::count_words("word"), 1);
}

#[test]
fn splitting_and_joining() {
    let parts = strutil::split_char("a b  c", ' ');
    assert_eq!(parts, vec!["a", "b", "", "c"]);
    assert_eq!(strutil::split_char("", ' '), vec![""]);
    let joined = strutil::join_comma(&vec!["a".to_string(), "b".to_string()]);
    assert_eq!(joined, "a,b");
    let spaced = strutil::join_space(&vec!["a".to_string(), "b".to_string()]);
    assert_eq!(spaced, "a b");
    assert_eq!(strutil::u64_to_string(0), "0");
    assert_eq!(strutil::u64_to_string(90210), "90210");
    assert_eq!(strutil::i32_to_string(-42), "-42");
    assert!(strutil::contains_str("broadcaster,vip", "vip"));
    assert!(!strutil::contains_str("subscriber", "vip"));
}

#[test]
fn split_line_cases() {
    assert_eq!(split_line("user,hello there"), Some(("user".to_string(), "hello there".to_string())));
    assert_eq!(split_line("   "), None);
    assert_eq!(split_line("no comma here"), None);
    assert_eq!(split_line("a,b,c"), Some(("a".to_string(), "b,c".to_string())));
}

#[test]
fn timezone_offsets() {
    assert_eq!(parse_known_tz_offset("EDT").unwrap(), "-0400");
    assert_eq!(parse_known_tz_offset("EST").unwrap(), "-0500");
    assert_eq!(parse_known_tz_offset("UTC").unwrap(), "+0000");
    assert!(parse_known_tz_offset("CET").is_err());
}

#[test]
fn reply_tracker_paces() {
    let mut t = ChannelReplyTracker { reply_timer: 1_000, message_count: 0 };
    t.count_message();
    t.count_message();
    assert!(t.should_reply(500, 2, 2_000));
    assert!(!t.should_reply(5_000, 2, 2_000));
    assert!(!t.should_reply(500, 3, 2_000));
    t.after_reply(2_000);
    assert_eq!(t.message_count, 0);
    assert_eq!(t.reply_timer, 2_000);
}

#[test]
fn cooldowns_track_users() {
    let channels = vec!["one".to_string(), "two".to_string()];
    let mut cds = Cooldowns::new(&channels, 10_000);
    assert!(!cds.has_cd_at("one", "alice", 50_000));
    cds.set_cd_at("one", "alice", 50_000);
    assert!(cds.has_cd_at("one", "alice", 55_000));
    assert!(!cds.has_cd_at("two", "alice", 55_000));
    assert!(!cds.has_cd_at("one", "bob", 55_000));
    // Well past the window the cooldown is gone.
    assert!(!cds.has_cd_at("one", "alice", 70_000));
    // A channel the tracker was not built with records nothing.
    cds.set_cd_at("three", "carol", 50_000);
    assert!(!cds.has_cd_at("three", "carol", 50_001));
}

#[test]
fn badges_decide_roles() {
    let user = MessageUser { login: "mod_person", badges: "moderator/1,founder/0" };
    assert!(user.is_mod());
    assert!(!user.is_streamer());
    assert!(user.has_badge("founder"));
    let streamer = MessageUser { login: "owner", badges: "broadcaster/1" };
    assert!(streamer.is_streamer());
}

#[test]
fn log_store_filters_by_channel() {
    let mut store = LogStore::new();
    store.store("alpha", "day1.log".to_string(), "alpha line".to_string());
    store.store("beta", "day1.log".to_string(), "beta line".to_string());
    store.store("alpha", "day2.log".to_string(), "alpha more".to_string());
    assert!(store.has("alpha"));
    assert!(!store.has("gamma"));

    let mut config = TrainingConfig::default();
    config.channels.push(("alpha".to_string(), vec!["beta".to_string()]));
    let filtered = store.filter("alpha", &config);
    assert_eq!(filtered, vec!["beta line", "alpha line", "alpha more"]);
    let mut everything = store.all();
    everything.sort();
    assert_eq!(everything, vec!["alpha line", "alpha more", "beta line"]);
}

#[test]
fn same_message_bypass_alternates() {
    let mut smb = SameMessageBypass::default();
    assert_eq!(smb.get(), "");
    assert_eq!(smb.get(), " ⠀");
    assert_eq!(smb.get(), "");
}

#[test]
fn credentials_fall_back_to_anonymous() {
    let c = Credentials::Regular(Regular { login: "me".to_string(), token: "tok".to_string() });
    assert_eq!(c.get(), ("me", "tok"));
    assert_eq!(Credentials::Anonymous.get(), ("justinfan83124", "just_a_lil_guy"));
}

#[test]
fn response_envelope_maps_and_converts() {
    let ok: Response<u32> = Response::Success(5);
    let mapped = ok.map(|v| v + 1);
    match mapped {
        Response::Success(v) => assert_eq!(v, 6),
        Response::Error(_) => panic!("mapped success stayed success"),
    }
    let err: Response<u32> = Response::Error(chain::user_api::Error {
        status: 401,
        message: "nope".to_string(),
    });
    let r = err.into_result();
    let e = r.unwrap_err();
    assert_eq!(e.status, 401);
    assert_eq!(e.message, "nope");
}

#[test]
fn access_tokens_encode_as_base64() {
    let t = AccessToken::generate(17);
    assert_eq!(t.user_id(), 17);
    assert_eq!(t.token().len(), 30);
    let expected =
        base64::engine::general_purpose::URL_SAFE.encode(format!("17-{}", t.token()));
    assert_eq!(t.encode(), expected);
}

#[test]
fn schema_constructors_copy_fields() {
    let out = CommandOutput::new("line".to_string(), OutputKind::Stdout);
    assert_eq!(out.output, "line");
    assert_eq!(out.output_kind, OutputKind::Stdout);
    let res = CommandResult::new(true, "exit: 0".to_string());
    assert!(res.is_success);
    assert_eq!(res.status_line, "exit: 0");
    chain::sentry::test();
    assert_eq!(chain::explorer::SCSQueries::api_version(), "1.0");
    let tok = chain::manage::AccessToken::new_not_validated("abc".to_string());
    assert_eq!(tok.0, "abc");
}
