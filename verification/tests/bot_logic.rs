use nine29_bot::clock::{clock_can_read, eastern_clock};
use nine29_bot::config::{channel_conf, in_bot_channel, is_929_time, trigger_time};
use nine29_bot::leaderboard::{
    format_points, get_leaderboard, leaderboard_page, rank_users, GuildMember, LeaderboardError,
};
use nine29_bot::navigation::{page_turn, target_position, PageTurn};
use nine29_bot::participation::{
    classify_message, watch_step, DailyState, MessageVerdict, Nine92er, WatchAction, WatchPhase,
};
use nine29_bot::text::{first_position, mentions_929, parse_usize, sanitize_username, u64_to_decimal};

const CHANNEL: u64 = 619704668590833692;
/// 2023-11-14 13:42:00 UTC, that is 9:42 four hours behind UTC.
const AT_9_42: i64 = 1699969320;

fn profile(id: i64, half_points: i64) -> Nine92er {
    Nine92er { _id: id, currentstreak: 0, half_points, maxstreak: 0, count: 0 }
}

fn member(id: u64, name: &str) -> GuildMember {
    GuildMember { user_id: id, display_name: name.to_string() }
}

#[test]
fn sanitize_escapes_spoiler_bars() {
    assert_eq!(sanitize_username("a||b".to_string()), "a\\|\\|b");
    assert_eq!(sanitize_username("|||".to_string()), "\\|\\||");
    assert_eq!(sanitize_username("||||".to_string()), "\\|\\|\\|\\|");
    assert_eq!(sanitize_username("plain name".to_string()), "plain name");
    assert_eq!(sanitize_username("ünï|cödé".to_string()), "ünï|cödé");
    assert_eq!(sanitize_username(String::new()), "");
}

#[test]
fn detects_the_token() {
    assert!(mentions_929("it's 929!"));
    assert!(mentions_929("9929"));
    assert!(!mentions_929("92 9"));
    assert!(!mentions_929("92"));
    assert!(!mentions_929(""));
}

#[test]
fn parses_like_std() {
    for s in ["42", "+7", "007", "0", "+", "", "-1", "1a", "18446744073709551615", "18446744073709551616", " 1"] {
        assert_eq!(parse_usize(s), s.parse::<usize>().ok(), "input {:?}", s);
    }
}

#[test]
fn reads_the_first_position_of_a_page() {
    assert_eq!(first_position("11. bob: 3\n12. eve: 1.5\n"), Some(11));
    assert_eq!(first_position("no dot here"), None);
    assert_eq!(first_position("x. y"), None);
    assert_eq!(first_position(".5"), None);
}

#[test]
fn recognises_buttons_and_targets() {
    assert_eq!(page_turn("prev"), Some(PageTurn::Previous));
    assert_eq!(page_turn("next"), Some(PageTurn::Next));
    assert_eq!(page_turn("nexT"), None);
    assert_eq!(page_turn("previous"), None);
    assert_eq!(target_position(PageTurn::Previous, 11), Some(0));
    assert_eq!(target_position(PageTurn::Previous, 21), Some(10));
    assert_eq!(target_position(PageTurn::Previous, 1), None);
    assert_eq!(target_position(PageTurn::Next, 1), Some(10));
}

#[test]
fn prev_undoes_next() {
    let p = 20;
    let next = target_position(PageTurn::Next, p + 1).unwrap();
    assert_eq!(next, 30);
    assert_eq!(target_position(PageTurn::Previous, next + 1), Some(p));
}

#[test]
fn trigger_minutes() {
    assert_eq!(trigger_time().hour, 10);
    assert_eq!(trigger_time().min, 42);
    assert!(is_929_time(9, 42));
    assert!(is_929_time(10, 42));
    assert!(!is_929_time(11, 42));
    assert!(!is_929_time(10, 41));
    assert!(!is_929_time(21, 42));
}

#[test]
fn channel_settings() {
    assert_eq!(channel_conf().channel_id, CHANNEL);
    assert_eq!(channel_conf().guild_id, 377637608848883723);
    assert!(in_bot_channel(CHANNEL));
    assert!(!in_bot_channel(CHANNEL + 1));
}

#[test]
fn classifies_messages() {
    assert_eq!(classify_message(1, "929", AT_9_42), MessageVerdict::OtherChannel);
    assert_eq!(classify_message(CHANNEL, "Happy 929!", AT_9_42), MessageVerdict::InWindow { mentions: true });
    assert_eq!(classify_message(CHANNEL, "NINE TWO NINE", AT_9_42), MessageVerdict::InWindow { mentions: false });
    // one hour later it is 10:42, which counts too
    assert_eq!(classify_message(CHANNEL, "929", AT_9_42 + 3600), MessageVerdict::InWindow { mentions: true });
    // one minute later it does not
    assert_eq!(
        classify_message(CHANNEL, "929", AT_9_42 + 60),
        MessageVerdict::OutOfWindow { mentions: true, hour: 9, minute: 43 }
    );
    // the epoch is 20:00 four hours behind UTC
    assert_eq!(classify_message(CHANNEL, "hi", 0), MessageVerdict::OutOfWindow { mentions: false, hour: 20, minute: 0 });
    // before the epoch the clock still runs forward
    assert_eq!(classify_message(CHANNEL, "hi", -61), MessageVerdict::OutOfWindow { mentions: false, hour: 19, minute: 58 });
}

#[test]
fn scores_participations() {
    let mut p = Nine92er::fresh(77);
    assert_eq!(p, Nine92er { _id: 77, currentstreak: 0, half_points: 0, maxstreak: 0, count: 0 });
    p.record_929(false, true);
    assert_eq!(p, Nine92er { _id: 77, currentstreak: 1, half_points: 3, maxstreak: 1, count: 1 });
    p.record_929(true, false);
    assert_eq!(p, Nine92er { _id: 77, currentstreak: 2, half_points: 5, maxstreak: 2, count: 2 });
    let mut q = Nine92er { _id: 5, currentstreak: 4, half_points: 10, maxstreak: 9, count: 4 };
    q.record_929(true, true);
    // streak 5: multiplier 2, first: 3 halves per unit
    assert_eq!(q, Nine92er { _id: 5, currentstreak: 5, half_points: 16, maxstreak: 9, count: 5 });
    q.record_929(false, false);
    assert_eq!(q, Nine92er { _id: 5, currentstreak: 1, half_points: 18, maxstreak: 9, count: 6 });
    let mut r = Nine92er { _id: 6, currentstreak: -11, half_points: 0, maxstreak: 0, count: 0 };
    r.record_929(true, false);
    // streak -10: multiplier 1 + (-2) = -1
    assert_eq!(r, Nine92er { _id: 6, currentstreak: -10, half_points: -2, maxstreak: 0, count: 1 });
}

#[test]
fn window_state() {
    let mut s = DailyState::new();
    assert!(s.register(1));
    assert!(!s.register(1));
    assert!(s.register(2));
    assert_eq!(s.did929, vec![1, 2]);
    assert!(s.take_first(1));
    assert!(!s.take_first(2));
    assert_eq!(s.first, 2);
    let docs = s.close_window();
    assert_eq!(docs.len(), 2);
    assert_eq!(docs[0]._id, 1);
    assert_eq!(docs[1]._id, 2);
    assert_eq!(docs[0]._t, "pastuser");
    assert!(s.did929.is_empty());
    assert_eq!(s.first, 0);
    assert!(s.register(1));
    assert!(s.take_first(1));
}

#[test]
fn big_ids_are_kept_bit_for_bit() {
    let mut s = DailyState::new();
    assert!(s.register(u64::MAX));
    let docs = s.close_window();
    assert_eq!(docs[0]._id, -1);
    assert_eq!(Nine92er::fresh(u64::MAX)._id, -1);
}

#[test]
fn points_are_shown_as_floats_are() {
    for h in [0i64, 1, 2, 3, 4, 21, -1, -3, -4, 1_000_001] {
        assert_eq!(format_points(h), format!("{}", h as f64 / 2.0), "half points {}", h);
    }
}

#[test]
fn ranks_by_points_later_first_on_ties() {
    let users = vec![profile(1, 4), profile(2, 10), profile(3, 4), profile(4, 0)];
    let ids: Vec<i64> = rank_users(&users).iter().map(|u| u._id).collect();
    assert_eq!(ids, vec![2, 3, 1, 4]);
}

#[test]
fn ranking_matches_sort_then_reverse() {
    let users: Vec<Nine92er> = (0..40).map(|i| profile(i, (i * 7919) % 13)).collect();
    let mut expected = users.clone();
    expected.sort_by(|a, b| a.half_points.cmp(&b.half_points));
    expected.reverse();
    assert_eq!(rank_users(&users), expected);
}

#[test]
fn leaderboard_text() {
    let users = vec![profile(1, 3), profile(2, 8), profile(3, 5)];
    let members = vec![member(1, "al||ice"), member(2, "bob"), member(3, "carol")];
    assert_eq!(
        get_leaderboard(&users, &members, 0),
        Ok("1. bob: 4\n2. carol: 2.5\n3. al\\|\\|ice: 1.5\n".to_string())
    );
    assert_eq!(get_leaderboard(&users, &members, 2), Ok("3. al\\|\\|ice: 1.5\n".to_string()));
    assert_eq!(get_leaderboard(&users, &members, 3), Ok(String::new()));
    assert_eq!(get_leaderboard(&users, &members, 4), Err(LeaderboardError::PositionExceedsLength));
    assert_eq!(LeaderboardError::PositionExceedsLength.message(), "Position exceeds user list length");
}

#[test]
fn leaderboard_skips_missing_members_and_stops_at_ten() {
    let ranked: Vec<Nine92er> = (0..15).map(|i| profile(i, 100 - i)).collect();
    // members 1 and 4 have left the guild
    let members: Vec<GuildMember> =
        (0..15u64).filter(|i| *i != 1 && *i != 4).map(|i| member(i, &format!("u{}", i))).collect();
    let page = leaderboard_page(&ranked, &members, 0).unwrap();
    let lines: Vec<&str> = page.lines().collect();
    assert_eq!(lines.len(), 10);
    assert_eq!(lines[0], "1. u0: 50");
    assert_eq!(lines[1], "2. u2: 49");
    assert_eq!(lines[3], "4. u5: 47.5");
    assert_eq!(lines[9], "10. u11: 44.5");
    assert_eq!(first_position(&page), Some(1));
    let second = leaderboard_page(&ranked, &members, 12).unwrap();
    assert_eq!(second, "13. u12: 44\n14. u13: 43.5\n15. u14: 43\n");
    assert_eq!(first_position(&second), Some(13));
}

#[test]
fn duplicate_member_ids_use_the_first() {
    let users = vec![profile(9, 2)];
    let members = vec![member(9, "first"), member(9, "second")];
    assert_eq!(get_leaderboard(&users, &members, 0), Ok("1. first: 1\n".to_string()));
}

#[test]
fn first_participant_earns_half_as_much_again() {
    for (streak, continued) in [(0, false), (3, true), (4, true), (14, true), (9, false)] {
        let base = Nine92er { _id: 1, currentstreak: streak, half_points: 7, maxstreak: 20, count: 3 };
        let mut first = base;
        first.record_929(continued, true);
        let mut later = base;
        later.record_929(continued, false);
        assert_eq!(2 * (first.half_points - base.half_points), 3 * (later.half_points - base.half_points));
        assert!(first.maxstreak >= first.currentstreak);
    }
}

#[test]
fn escaping_is_undone_by_unescaping() {
    for name in ["a||b", "|||", "||||", "x|y", "", "|", "ünï||cödé||", "plain"] {
        let escaped = sanitize_username(name.to_string());
        assert_eq!(escaped.replace("\\|\\|", "||"), name);
    }
}

#[test]
fn decimal_text() {
    for n in [0u64, 7, 10, 99, 100, 1234567890, u64::MAX] {
        assert_eq!(u64_to_decimal(n), n.to_string());
    }
}

#[test]
fn clock_range_and_offset() {
    assert!(clock_can_read(0));
    assert!(clock_can_read(8_210_266_876_799));
    assert!(!clock_can_read(8_210_266_876_800));
    assert!(clock_can_read(-8_334_601_228_800 + 14_400));
    assert!(!clock_can_read(-8_334_601_228_800 + 14_399));
    // the last and first seconds chrono can hold
    assert_eq!(eastern_clock(8_210_266_876_799), (19, 59));
    assert_eq!(eastern_clock(-8_334_601_228_800 + 14_400), (0, 0));
    assert_eq!(eastern_clock(AT_9_42), (9, 42));
}

#[test]
fn watcher_closes_once_per_minute() {
    // readings: before, in, in, after, after, in, after
    let readings = [(9, 41), (9, 42), (9, 42), (9, 43), (10, 0), (10, 42), (10, 43)];
    let mut phase = WatchPhase::Waiting;
    let mut actions = Vec::new();
    for (h, m) in readings {
        let (next, action) = watch_step(phase, h, m);
        phase = next;
        actions.push(action);
    }
    assert_eq!(
        actions,
        vec![
            WatchAction::Idle,
            WatchAction::Opened,
            WatchAction::Idle,
            WatchAction::Close,
            WatchAction::Idle,
            WatchAction::Opened,
            WatchAction::Close
        ]
    );
    assert_eq!(phase, WatchPhase::Waiting);
}

#[test]
fn only_the_first_scorer_is_first() {
    let mut s = DailyState::new();
    let flags: Vec<bool> = [5u64, 6, 7].iter().map(|a| s.take_first(*a)).collect();
    assert_eq!(flags, vec![true, false, false]);
    assert_eq!(s.first, 7);
}

#[test]
fn streak_continues_across_windows() {
    let mut s = DailyState::new();
    assert!(s.register(11));
    let docs = s.close_window();
    let took_part = |id: u64| docs.iter().any(|d| d._id == id as i64);
    let mut a = Nine92er { _id: 11, currentstreak: 3, half_points: 0, maxstreak: 3, count: 3 };
    a.record_929(took_part(11), false);
    assert_eq!(a.currentstreak, 4);
    let mut b = Nine92er { _id: 12, currentstreak: 3, half_points: 0, maxstreak: 3, count: 3 };
    b.record_929(took_part(12), false);
    assert_eq!(b.currentstreak, 1);
}

#[test]
fn consecutive_pages_tile() {
    let ranked: Vec<Nine92er> = (0..25).map(|i| profile(i, 200 - i)).collect();
    let members: Vec<GuildMember> = (0..25u64).map(|i| member(i, &format!("u{}", i))).collect();
    let first = leaderboard_page(&ranked, &members, 3).unwrap();
    let second = leaderboard_page(&ranked, &members, 13).unwrap();
    let joined = format!("{}{}", first, second);
    let lines: Vec<&str> = joined.lines().collect();
    assert_eq!(lines.len(), 20);
    for (k, line) in lines.iter().enumerate() {
        let i = 3 + k;
        assert!(line.starts_with(&format!("{}. u{}: ", i + 1, i)), "line {:?}", line);
    }
}
