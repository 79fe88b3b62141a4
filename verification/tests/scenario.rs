use jsonparse::scenario::{create_scenario, UserData};

fn user() -> UserData {
    UserData {
        sid: "42".to_string(),
        msg_in: String::new(),
        msg_out: String::new(),
        script: String::new(),
    }
}

fn say(s: &mut jsonparse::scenario::Scenario, udata: &mut UserData, msg: &str) -> bool {
    udata.msg_in = msg.to_string();
    s.resume(udata)
}

#[test]
fn dialogue_ends_when_the_mood_is_ok() {
    let mut s = create_scenario();
    let mut u = user();
    assert!(!s.is_done());
    assert!(say(&mut s, &mut u, ""));
    assert_eq!(u.msg_out, "Hi, what is you name ?");
    assert!(say(&mut s, &mut u, "Ann"));
    assert_eq!(u.msg_out, "Ann, how are you feeling ?");
    assert!(!say(&mut s, &mut u, "ok"));
    assert_eq!(u.msg_out, "Ann, good bye !");
    assert!(s.is_done());
    assert_eq!(u.sid, "42");
    assert_eq!(u.msg_in, "ok");
}

#[test]
fn dialogue_pleads_in_turn_until_the_mood_is_ok() {
    let mut s = create_scenario();
    let mut u = user();
    say(&mut s, &mut u, "");
    say(&mut s, &mut u, "Bob");
    assert!(say(&mut s, &mut u, "bad"));
    assert_eq!(u.msg_out, "Bob, think carefully, maybe you're ok ?");
    assert!(say(&mut s, &mut u, "still bad"));
    assert_eq!(u.msg_out, "Bob, millions of people are starving, maybe you're ok ?");
    assert!(say(&mut s, &mut u, "ok!"));
    assert_eq!(u.msg_out, "Bob, think carefully, maybe you're ok ?");
    assert!(!say(&mut s, &mut u, "ok"));
    assert_eq!(u.msg_out, "Bob, good bye !");
}

#[test]
fn mood_is_compared_in_lower_case() {
    for mood in ["OK", "Ok", "oK", "o\u{212A}"] {
        let mut s = create_scenario();
        let mut u = user();
        say(&mut s, &mut u, "");
        say(&mut s, &mut u, "Eve");
        assert!(!say(&mut s, &mut u, mood));
        assert_eq!(u.msg_out, "Eve, good bye !");
    }
}

#[test]
fn the_name_is_the_answer_to_the_first_question() {
    let mut s = create_scenario();
    let mut u = user();
    say(&mut s, &mut u, "ignored");
    assert_eq!(u.msg_out, "Hi, what is you name ?");
    say(&mut s, &mut u, "OK");
    assert_eq!(u.msg_out, "OK, how are you feeling ?");
    assert!(!s.is_done());
}

#[test]
fn advance_takes_the_lower_case_form_as_given() {
    let mut s = create_scenario();
    assert_eq!(s.advance("", ""), "Hi, what is you name ?");
    assert_eq!(s.advance("Al", "al"), "Al, how are you feeling ?");
    assert_eq!(s.advance("fine", "ok"), "Al, good bye !");
    assert!(s.is_done());
}
